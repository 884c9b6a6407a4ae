// These tests check that no function leaks an element or drops one twice.

use std::any::{Any, TypeId};
use std::cell::RefCell;
use std::fmt::Debug;

use vec_utils::boxed::{BoxExt, UninitBox};
use vec_utils::layout::Layout;
use vec_utils::try_trait::NoneError;
use vec_utils::vec::VecExt;

/// Records every value that it hands out and whether the value was dropped.
pub struct DropCounter(RefCell<Vec<bool>>);

/// A value that tells its `DropCounter` when it is dropped.
pub struct OnDrop<'a, T: Debug + Any>(&'a DropCounter, usize, TypeId, T);

impl<'a, T: Debug + Any + Clone> Clone for OnDrop<'a, T> {
    fn clone(&self) -> Self {
        self.0.create(self.3.clone())
    }
}

impl DropCounter {
    pub fn new() -> Self {
        DropCounter(RefCell::default())
    }

    fn init(&self) -> usize {
        let mut values = self.0.borrow_mut();
        let len = values.len();
        values.push(false);
        len
    }

    pub fn created(&self) -> usize {
        self.0.borrow().len()
    }

    pub fn dropped(&self) -> usize {
        self.0.borrow().iter().filter(|&&was_dropped| was_dropped).count()
    }

    pub fn create<T: Debug + Any>(&self, value: T) -> OnDrop<'_, T> {
        let len = self.init();
        OnDrop(self, len, TypeId::of::<T>(), value)
    }
}

impl<T: Debug + Any> OnDrop<'_, T> {
    pub fn get(&self) -> &T {
        &self.3
    }
}

impl<T: Debug + Any> Drop for OnDrop<'_, T> {
    fn drop(&mut self) {
        if TypeId::of::<T>() != self.2 {
            panic!("Incorrect type punning detected! {:?}", self.1)
        }

        let was_dropped = {
            let mut values = (self.0).0.borrow_mut();
            let was_dropped = values[self.1];
            values[self.1] = true;
            was_dropped
        };

        if was_dropped {
            panic!("Double dropped {:?}", self.3);
        }
    }
}

impl Drop for DropCounter {
    fn drop(&mut self) {
        let leaked: Vec<usize> = self
            .0
            .borrow()
            .iter()
            .enumerate()
            .filter(|(_, &was_dropped)| !was_dropped)
            .map(|(i, _)| i)
            .collect();

        if !leaked.is_empty() {
            panic!("Detected leak: {:?}", leaked)
        }
    }
}

#[test]
fn simple() {
    let _dr = DropCounter::new();
}

#[test]
fn create() {
    let dr = DropCounter::new();

    dr.create(());
}

#[test]
fn create_many() {
    let dr = DropCounter::new();

    let _ = (0..100).map(|_| dr.create(())).collect::<Vec<_>>();
}

#[test]
#[should_panic]
fn leak() {
    let dr = DropCounter::new();

    std::mem::forget(dr.create("leak"));
}

#[test]
fn drop() {
    let dr = DropCounter::new();

    let bx = Box::new(dr.create("drop once"));

    let _uninit = Box::drop_box(bx);

    assert_eq!(dr.dropped(), 1);
}

#[test]
fn init() {
    let dr = DropCounter::new();

    let bx = Box::new(dr.create("drop once"));

    let uninit = Box::drop_box(bx);

    uninit.init(dr.create("init"));
}

#[test]
fn take() {
    let dr = DropCounter::new();

    let bx = Box::new(dr.create("drop once"));

    let (_uninit, _value) = Box::take_box(bx);
}

#[test]
fn take_re_init() {
    let dr = DropCounter::new();

    let bx = Box::new(dr.create("drop once"));

    let (uninit, value) = Box::take_box(bx);

    uninit.init(value);
}

#[test]
fn safety_tests_map() {
    let dr = DropCounter::new();

    let vec = (0..10).map(|x| dr.create(x)).collect::<Vec<_>>();

    vec.map(|x| dr.create(*x.get()));

    assert_eq!(dr.created(), 20);
    assert_eq!(dr.dropped(), 20);
}

#[test]
fn safety_tests_try_map() {
    let dr = DropCounter::new();

    let vec = (0..10).map(|x| dr.create(x)).collect::<Vec<_>>();

    let mut counter = 0;

    let err = vec
        .try_map(|x| {
            counter += 1;

            if counter == 3 {
                None
            } else {
                Some(dr.create(*x.get() as f32))
            }
        })
        .is_err();

    assert!(err);
}

#[test]
fn safety_tests_zip_with_same() {
    let dr = DropCounter::new();

    let mut a = (0i32..10).map(|x| dr.create(x)).collect::<Vec<_>>();
    let b = (20i32..30).map(|x| dr.create(x)).collect::<Vec<_>>();

    let mut flip = false;

    a = a.zip_with(b, |x, y| {
        flip = !flip;

        if flip {
            x
        } else {
            y
        }
    });

    assert_eq!(a.len(), 10);
}

#[test]
fn safety_tests_zip_with_diff() {
    let dr = DropCounter::new();

    let a = (0..10).map(|x| dr.create(x)).collect::<Vec<_>>();
    let mut b = (20..40).map(|x| dr.create(x)).collect::<Vec<_>>();

    let mut flip = false;

    b = a.zip_with(b, |x, y| {
        flip = !flip;

        if flip {
            x
        } else {
            y
        }
    });

    assert_eq!(b.len(), 10);
}

#[test]
fn safety_tests_try_zip_with() {
    let dr = DropCounter::new();

    let a = (0..10).map(|x| dr.create(x)).collect::<Vec<_>>();
    let b = (20..40).map(|x| dr.create(x)).collect::<Vec<_>>();

    let mut flip = false;
    let mut counter = 0;

    let err = a
        .try_zip_with(b, |x, y| {
            flip = !flip;
            counter += 1;

            if counter == 5 {
                None
            } else {
                Some(dr.create((*x.get()) as f32 + *y.get() as f32))
            }
        })
        .is_err();

    assert!(err);
}

#[test]
fn try_map_returns_the_first_error() {
    let vec = vec![1u32, 2, 3, 4];
    let mut calls = 0;

    let result: Result<Vec<u32>, u32> = vec.try_map(|x| {
        calls += 1;
        if x >= 2 {
            Err(x)
        } else {
            Ok(x * 10)
        }
    });

    assert_eq!(result, Err(2));
    assert_eq!(calls, 2);
}

#[test]
fn try_map_of_none_is_none_error() {
    let vec = vec![1u8, 2, 3];

    let result: Result<Vec<u32>, NoneError> =
        vec.try_map(|x| if x == 3 { None } else { Some(u32::from(x)) });

    assert_eq!(result, Err(NoneError));
}

#[test]
fn map_to_another_layout() {
    let vec = vec![1u8, 2, 3];

    let out: Vec<u32> = vec.map(|x| u32::from(x) + 256);

    assert_eq!(out, [257, 258, 259]);
}

#[test]
fn map_of_empty_buffer_is_empty() {
    let vec: Vec<u32> = Vec::new();

    let out: Vec<u32> = vec.map(|x| x + 1);

    assert!(out.is_empty());
}

#[test]
fn zip_with_stops_at_the_shorter_buffer() {
    let dr = DropCounter::new();

    let a = [0, 1, 2, 3, 4].iter().map(|&x| dr.create(x)).collect::<Vec<_>>();
    let b = [10, 20, 30].iter().map(|&x| dr.create(x)).collect::<Vec<_>>();

    let out: Vec<i32> = a.zip_with(b, |x, y| *x.get() + *y.get());

    assert_eq!(out, [10, 21, 32]);
    assert_eq!(dr.created(), 8);
    assert_eq!(dr.dropped(), 8);
}

#[test]
fn try_zip_with_stops_at_the_fifth_row() {
    let dr = DropCounter::new();

    let a = (0..10).map(|x| dr.create(x)).collect::<Vec<_>>();
    let b = (100..110).map(|x| dr.create(x)).collect::<Vec<_>>();

    let mut calls = 0;

    let result: Result<Vec<i32>, i32> = a.try_zip_with(b, |x, y| {
        calls += 1;
        if calls == 5 {
            Err(*x.get() + *y.get())
        } else {
            Ok(*x.get() + *y.get())
        }
    });

    assert_eq!(result, Err(108));
    assert_eq!(calls, 5);
    assert_eq!(dr.created(), 20);
    assert_eq!(dr.dropped(), 20);
}

#[test]
fn try_zip_with_collects_every_row() {
    let a = vec![1u16, 2, 3];
    let b = vec![10u64, 20, 30, 40];

    let result: Result<Vec<u64>, ()> = a.try_zip_with(b, |x, y| Ok(u64::from(x) + y));

    assert_eq!(result, Ok(vec![11, 22, 33]));
}

#[test]
fn drop_and_reuse_drops_every_element() {
    let dr = DropCounter::new();

    let vec = (0u32..10).map(|x| dr.create(x)).collect::<Vec<_>>();

    let out: Vec<OnDrop<'_, i32>> = vec.drop_and_reuse();

    assert!(out.is_empty());
    assert_eq!(dr.created(), 10);
    assert_eq!(dr.dropped(), 10);
}

#[test]
fn drop_and_reuse_with_another_layout_is_empty() {
    let vec = vec![1u8, 2, 3];

    let out: Vec<u64> = vec.drop_and_reuse();

    assert!(out.is_empty());
}

#[test]
fn uninit_box_of_no_bytes_is_dangling() {
    let mut uninit = UninitBox::new::<()>();

    assert_eq!(uninit.layout(), Layout::new::<()>());
    assert_eq!(uninit.layout().size(), 0);
    assert_eq!(uninit.as_ptr(), Some(1));
    assert_eq!(uninit.as_mut_ptr(), Some(1));
}

#[test]
fn uninit_box_of_some_bytes_has_no_fixed_address() {
    let uninit = UninitBox::from_layout(Layout::new::<u64>());

    assert_eq!(uninit.layout().size(), 8);
    assert_eq!(uninit.as_ptr(), None);
    assert_eq!(*uninit.init(7u64), 7);
}

#[test]
fn uninit_box_init_with_calls_the_function() {
    let uninit = UninitBox::new::<u32>();

    let bx = uninit.init_with(|| 41u32 + 1);

    assert_eq!(*bx, 42);
}

#[test]
fn take_box_returns_the_value() {
    let (uninit, value) = Box::take_box(Box::new(5u16));

    assert_eq!(value, 5);
    assert_eq!(uninit.layout(), Layout::new::<u16>());
    assert_eq!(*uninit.init(6i16), 6);
}

#[test]
fn drop_box_of_a_slice_has_the_layout_of_the_slice() {
    let bx: Box<[u32]> = vec![1u32, 2, 3].into_boxed_slice();

    let uninit = Box::drop_box(bx);

    assert_eq!(uninit.layout().size(), 12);
    assert_eq!(uninit.layout().align(), 4);
}
