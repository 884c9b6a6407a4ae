// Chains of transformations that are built first and run later.

use std::cell::Cell;
use std::convert::Infallible;

use vec_utils::combin::data::Data;
use vec_utils::combin::{into_vec, try_fold, try_into_vec, Either, IntoVecIter, VecIter};
use vec_utils::lazy;
use vec_utils::lazy::{into_writer, VecData, VecTransform, Writer, ZipError};
use vec_utils::try_trait::NoneError;

/// Counts the values that are alive.
struct Alive<'a, T = i32>(&'a Cell<i64>, T);

impl<'a, T> Alive<'a, T> {
    fn new(count: &'a Cell<i64>, value: T) -> Self {
        count.set(count.get() + 1);
        Alive(count, value)
    }
}

impl<T> Drop for Alive<'_, T> {
    fn drop(&mut self) {
        self.0.set(self.0.get() - 1);
    }
}

#[test]
fn combin_map() {
    let count = Cell::new(0);

    let vec = (0..10).map(|x| Alive::new(&count, x)).collect::<Vec<_>>();

    let chain = Data::from(vec).map(|x: Alive<'_>| Alive::new(&count, x.1));
    assert_eq!(chain.len(), 10);
    assert_eq!(count.get(), 10);

    std::mem::drop(chain);
    assert_eq!(count.get(), 0);
}

#[test]
fn combin_try_map() {
    let count = Cell::new(0);

    let vec = (0..10).map(|x| Alive::new(&count, x)).collect::<Vec<_>>();

    let mut counter = 0;

    let err = try_into_vec(Data::from(vec).try_map(|x: Alive<'_>| {
        counter += 1;

        if counter == 4 {
            None
        } else {
            Some(Alive::new(&count, x.1))
        }
    }))
    .is_err();

    assert!(err);
    assert_eq!(counter, 4);
    assert_eq!(count.get(), 0);
}

#[test]
fn combin_zip_with_same() {
    let count = Cell::new(0);

    let mut a = (0..10).map(|x| Alive::new(&count, x)).collect::<Vec<_>>();
    let b = (20..30).map(|x| Alive::new(&count, x)).collect::<Vec<_>>();

    let mut flip = false;

    a = into_vec(Data::from(a).zip(Data::from(b)).map(|(x, y)| {
        flip = !flip;

        if flip {
            x
        } else {
            y
        }
    }));

    let values: Vec<i32> = a.iter().map(|x| x.1).collect();
    assert_eq!(values, [0, 21, 2, 23, 4, 25, 6, 27, 8, 29]);
    assert_eq!(count.get(), 10);
}

#[test]
fn combin_zip_with_diff() {
    let count = Cell::new(0);

    let a = (0..10).map(|x| Alive::new(&count, x)).collect::<Vec<_>>();
    let mut b = (20..30).map(|x| Alive::new(&count, x)).collect::<Vec<_>>();

    b.reserve(10);

    let mut flip = false;

    b = into_vec(Data::from(a).zip(Data::from(b)).map(|(x, y)| {
        flip = !flip;

        if flip {
            x
        } else {
            y
        }
    }));

    assert_eq!(b.len(), 10);
    assert_eq!(count.get(), 10);
}

#[test]
fn combin_try_zip_with() {
    let count = Cell::new(0);

    let a = (0u32..10).map(|x| Alive::new(&count, x)).collect::<Vec<_>>();
    let mut b = (20i32..30).map(|x| Alive::new(&count, x)).collect::<Vec<_>>();

    b.reserve(10);

    let mut flip = false;
    let mut counter = 0;

    let result = try_into_vec(Data::from(a).zip(Data::from(b)).try_map(|(x, y)| {
        flip = !flip;
        counter += 1;

        if counter == 5 {
            None
        } else {
            Some(Alive::new(&count, x.1 as f32 + y.1 as f32))
        }
    }));

    assert!(matches!(result, Err(Either::Right(NoneError))));
    assert_eq!(counter, 5);
    assert_eq!(count.get(), 0);
}

#[test]
fn combin_capacity_for_the_output() {
    let mut a = vec![1u32, 2, 3];
    a.reserve(100);
    let big = a.capacity();
    let b = vec![1i32, 2, 3, 4];
    let small = b.capacity();
    assert!(big > small);

    let chain = Data::from(b).zip(Data::from(a));
    assert_eq!(chain.len(), 3);
    assert_eq!(chain.get_cap_for::<f32>(), Some(big));
    assert_eq!(chain.get_cap_for::<u8>(), None);

    let (mut iter, output) = chain.split_vec_iter::<f32>();
    assert_eq!(output.len(), 0);
    assert!(matches!(iter, Either::Right(_)));
    assert_eq!(iter.remaining(), 3);
    assert!(matches!(iter.next_unchecked(), Ok((1, 1))));
    assert_eq!(iter.remaining(), 2);
}

#[test]
fn combin_try_fold_sums_in_order() {
    let mut iter = Data::from(vec![1u32, 2, 3, 4]).into_vec_iter();

    let sum = try_fold(&mut iter, 0u32, |acc, x| Some(acc * 10 + x));

    assert!(matches!(sum, Ok(1234)));
    assert_eq!(iter.remaining(), 0);
}

#[test]
fn combin_try_fold_stops_where_the_function_fails() {
    let mut iter = Data::from(vec![1u32, 2, 3, 4]).into_vec_iter();

    let sum = try_fold(&mut iter, 0u32, |acc, x| if x == 3 { Err(acc) } else { Ok(acc + x) });

    assert!(matches!(sum, Err(Either::Right(3))));
    assert_eq!(iter.remaining(), 1);
}

#[test]
fn combin_try_fold_stops_where_the_chain_fails() {
    let mut iter = Data::from(vec![1u32, 2, 3, 4])
        .try_map(|x| if x == 2 { Err("two") } else { Ok(x) })
        .into_vec_iter();

    let sum: Result<u32, Either<Either<Infallible, &str>, ()>> =
        try_fold(&mut iter, 0u32, |acc, x| Ok(acc + x));

    assert!(matches!(sum, Err(Either::Left(Either::Right("two")))));
}

#[test]
fn combin_data_into_output_is_empty() {
    let mut output = Data::from(vec![1u8, 2, 3]).into_output();
    assert!(output.is_empty());

    output.write(7);
    output.write(8);
    assert_eq!(output.len(), 2);
    assert_eq!(output.into_vec(), [7, 8]);
}

#[test]
fn lazy_map_and_zip() {
    let a = vec![1u32, 2, 3, 4];
    let b = vec![10u64, 20, 30];

    let chain = VecData::<u32, lazy::Input>::from(a)
        .zip(VecData::<u64, lazy::Input>::from(b))
        .map(|(x, y)| u64::from(x) + y);

    assert_eq!(chain.len(), 3);
    assert!(!chain.is_empty());

    let out = into_writer(chain).into_vec();

    assert_eq!(out, [11, 22, 33]);
}

#[test]
fn lazy_try_map_stops_at_the_first_error() {
    let count = Cell::new(0);

    let vec = (0..10).map(|x| Alive::new(&count, x)).collect::<Vec<_>>();

    let mut calls = 0;

    let result = Writer::new(VecData::<_, lazy::Input>::from(vec).try_map(|x: Alive<'_>| {
        calls += 1;
        if x.1 == 6 {
            Err(x.1)
        } else {
            Ok(Alive::new(&count, x.1))
        }
    }))
    .try_into_vec();

    match result {
        Err(lazy::Either::Func(e)) => assert_eq!(e, 6),
        _ => panic!("the seventh element fails"),
    }
    assert_eq!(calls, 7);
    assert_eq!(count.get(), 0);
}

#[test]
fn lazy_data_segment_states() {
    let mut vec = vec![1u16, 2, 3];
    vec.reserve(5);
    let cap = vec.capacity();

    let data = VecData::<u16, lazy::Init>::from(vec);
    assert_eq!(data.len(), 3);
    assert_eq!(data.capacity(), cap);
    assert_eq!(data.state(), lazy::Init);

    let mut input = data.into_input();
    assert_eq!(input.next_unchecked(), 1);
    assert_eq!(input.len(), 2);
    assert_eq!(input.is_compat::<i16>(), Some(cap));
    assert_eq!(input.is_compat::<u8>(), None);

    let mut output = input.make_output::<i16>();
    assert_eq!(output.capacity(), cap);
    assert!(output.is_empty());
    output.write_unchecked(-1);
    assert_eq!(output.into_vec(), [-1]);

    let empty = VecData::<u16, lazy::Init>::from(vec![4, 5]).into_output();
    assert_eq!(empty.len(), 0);
    assert_eq!(empty.state(), lazy::Output);

    assert_eq!(VecData::<u16, lazy::Init>::from(vec![4, 5]).into_vec(), [4, 5]);
}

#[test]
fn lazy_errors_of_one_side() {
    let right: ZipError<Infallible, u8> = ZipError::Right(3);
    assert_eq!(right.into_right(), 3);

    let left: ZipError<u8, Infallible> = ZipError::Left(4);
    assert_eq!(left.into_left(), 4);

    let func: lazy::Either<Infallible, u8> = lazy::Either::Func(5);
    assert_eq!(func.into_func(), 5);

    let inner: lazy::Either<u8, Infallible> = lazy::Either::Inner(6);
    assert_eq!(inner.into_inner(), 6);
}
