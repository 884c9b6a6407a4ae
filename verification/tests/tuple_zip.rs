// Zipping with the allocation chosen in two steps.

use std::convert::Infallible;

use vec_utils::tuple;
use vec_utils::tuple::{InitTuple, Tuple};

#[test]
fn tuple_try_zip_with() {
    let a = vec![1u32, 2, 3];
    let b = vec![10u32, 20, 30, 40];

    let result: Result<Vec<u32>, Infallible> =
        tuple::try_zip_with((a, (b,)), |(x, y): (u32, u32)| Ok(x + y));

    assert_eq!(tuple::unwrap(result), [11, 22, 33]);
}

#[test]
fn tuple_try_zip_with_stops_at_the_first_error() {
    let a = vec![1u32, 2, 3];
    let b = vec![10u8, 20, 30, 40];
    let mut calls = 0;

    let result: Result<Vec<u8>, u32> = tuple::try_zip_with((a, (b,)), |(x, y): (u32, u8)| {
        calls += 1;
        if x == 3 {
            Err(x)
        } else {
            Ok(y)
        }
    });

    assert_eq!(result, Err(3));
    assert_eq!(calls, 3);
}

#[test]
fn tuple_pick_takes_the_larger_allocation() {
    let a = Vec::<u32>::with_capacity(4);
    let mut b = vec![1i32, 2];
    b.reserve(30);
    let cap = b.capacity();

    let input = (a, (b,));
    assert_eq!(input.min_len(), 0);
    assert!(input.check_pick::<f32>());
    assert!(!input.check_pick::<u8>());

    let mut data = <(Vec<u32>, (Vec<i32>,)) as Tuple>::into_data(input);

    assert!(<(Vec<u32>, (Vec<i32>,)) as Tuple>::pick::<u8>(&mut data).is_none());
    assert!(data.0.owns_alloc());
    assert!(data.1.owns_alloc());

    let output = <(Vec<u32>, (Vec<i32>,)) as Tuple>::pick::<f32>(&mut data);
    assert_eq!(output.map(|output| output.capacity()), Some(cap));
    assert!(data.0.owns_alloc());
    assert!(!data.1.owns_alloc());
}

#[test]
fn tuple_rows_of_three_buffers() {
    let input = (vec![1u8, 2], (vec![3u8, 4, 5], (vec![6u8, 7, 8],)));

    assert_eq!(input.min_len(), 2);
    assert_eq!(input.into_iter(), [(1, (3, 6)), (2, (4, 7))]);
}
