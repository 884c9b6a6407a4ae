// The parts that the engines are made of.

use std::convert::Infallible;
use std::task::Poll;

use vec_utils::transform::{Each, Transform, TryEach};
use vec_utils::try_trait::{NoneError, Try};
use vec_utils::vec::general_zip::{collect_rows, try_zip_with_impl, zip_vecs, Seal, ZipWithIter};
use vec_utils::vec::{pick_side, Input, Output, Side};

#[test]
fn input_is_read_front_to_back() {
    let mut vec = vec![1u32, 2, 3];
    vec.reserve(7);
    let cap = vec.capacity();

    let mut input = Input::from(vec);
    assert_eq!(input.len(), 3);
    assert_eq!(input.position(), 0);
    assert_eq!(input.capacity(), cap);
    assert!(input.capacity() >= 10);
    assert!(input.owns_alloc());

    assert_eq!(input.next(), 1);
    assert_eq!(input.next(), 2);
    assert_eq!(input.len(), 1);
    assert_eq!(input.position(), 2);

    input.surrender_allocation();
    assert!(!input.owns_alloc());

    input.drop();
    assert_eq!(input.len(), 0);
    assert_eq!(input.position(), 2);
    assert!(!input.owns_alloc());
}

#[test]
fn input_that_is_dropped_owns_nothing() {
    let mut input = Input::from(vec![1u8, 2]);

    input.drop();

    assert_eq!(input.len(), 0);
    assert!(!input.owns_alloc());
}

#[test]
fn output_is_written_in_order() {
    let mut output: Output<u8> = Output::new(4);
    assert_eq!(output.len(), 0);
    assert_eq!(output.capacity(), 4);

    output.write(5);
    output.write(6);
    output.write(7);
    assert_eq!(output.len(), 3);

    assert_eq!(output.into_owned_buffer(2), [5, 6]);
}

#[test]
fn output_take_leaves_it_empty() {
    let mut output: Output<u8> = Output::new(2);
    output.write(1);
    output.write(2);

    assert_eq!(output.take(1), [1]);
    assert_eq!(output.len(), 0);
    assert_eq!(output.capacity(), 2);
}

#[test]
fn larger_matching_allocation_is_picked() {
    assert_eq!(pick_side(true, true, 8, 4), Some(Side::Left));
    assert_eq!(pick_side(true, true, 4, 8), Some(Side::Right));
    assert_eq!(pick_side(true, true, 4, 4), Some(Side::Left));
    assert_eq!(pick_side(true, false, 1, 100), Some(Side::Left));
    assert_eq!(pick_side(false, true, 100, 1), Some(Side::Right));
    assert_eq!(pick_side(false, false, 1, 2), None);
}

#[test]
fn max_cap_finds_the_largest_matching_input() {
    let a = Vec::<u32>::with_capacity(4);
    let b = Vec::<u8>::with_capacity(1000);
    let mut c = vec![0f32; 3];
    c.reserve(50);
    let (cap_a, cap_c) = (a.capacity(), c.capacity());
    assert!(cap_c > cap_a);

    let data = (a, (b, (c,))).into_data();

    let mut depth = 99;
    assert_eq!(<(Vec<u32>, (Vec<u8>, (Vec<f32>,)))>::max_cap::<i32>(&data, &mut depth), Some(cap_c));
    assert_eq!(depth, 0);

    let mut depth = 99;
    assert_eq!(<(Vec<u32>, (Vec<u8>, (Vec<f32>,)))>::max_cap::<u64>(&data, &mut depth), None);
    assert_eq!(depth, 99);

    assert!(<(Vec<u32>, (Vec<u8>, (Vec<f32>,)))>::check_layout::<i32>());
    assert!(<(Vec<u32>, (Vec<u8>, (Vec<f32>,)))>::check_layout::<i8>());
    assert!(!<(Vec<u32>, (Vec<u8>, (Vec<f32>,)))>::check_layout::<u64>());
}

#[test]
fn first_of_equally_large_inputs_is_picked() {
    let a = Vec::<u32>::with_capacity(16);
    let b = Vec::<i32>::with_capacity(16);
    assert_eq!(a.capacity(), b.capacity());

    let mut data = (a, (b,)).into_data();

    let mut depth = 99;
    <(Vec<u32>, (Vec<i32>,))>::max_cap::<f32>(&data, &mut depth);
    assert_eq!(depth, 1);

    let output = <(Vec<u32>, (Vec<i32>,))>::take_output::<f32>(&mut data);
    assert_eq!(output.capacity(), 16);
    assert!(!data.0.owns_alloc());
    assert!((data.1).owns_alloc());
}

#[test]
fn rows_are_as_many_as_the_shortest_input() {
    let input = (vec![1u8, 2, 3, 4], (vec![1u16, 2], (vec![1u32, 2, 3],)));

    assert_eq!(input.remaining_len(), 2);
    assert_eq!(input.into_iterator(), [(1, (1, 1)), (2, (2, 2))]);
}

#[test]
fn zip_vecs_pairs_in_order() {
    assert_eq!(zip_vecs(vec![1, 2, 3], vec!['a', 'b']), [(1, 'a'), (2, 'b')]);
    assert_eq!(zip_vecs(Vec::<u8>::new(), vec!['a', 'b']), []);
}

#[test]
fn engine_stops_in_the_middle_of_the_failing_row() {
    let input = (vec![1u32, 2, 3, 4], (vec![10u32, 20, 30],));

    let mut engine = ZipWithIter::<u32, _>::new(input);

    let mut calls = 0;
    let result = engine.run(TryEach(|(x, y): (u32, u32)| {
        calls += 1;
        if x == 2 {
            Err(y)
        } else {
            Ok(x + y)
        }
    }));

    assert_eq!(result, Err(20));
    assert_eq!(calls, 2);
    assert_eq!(engine.rows_started(), 2);
    assert_eq!(engine.rows_written(), 1);
    assert_eq!(engine.rows_left(), 1);

    engine.drop();

    assert_eq!(engine.rows_written(), 0);
    assert_eq!(engine.rows_started(), 2);
}

#[test]
fn engine_that_fails_on_the_first_row_has_written_nothing() {
    let input = (vec![1u32, 2, 3], (vec![10u32, 20, 30],));

    let mut engine = ZipWithIter::<u32, _>::new(input);
    assert_eq!(engine.rows_started(), 0);
    assert_eq!(engine.rows_left(), 3);

    let result: Result<(), &str> = engine.run(TryEach(|_: (u32, u32)| Err::<u32, _>("no")));

    assert_eq!(result, Err("no"));
    assert_eq!(engine.rows_started(), 1);
    assert_eq!(engine.rows_written(), 0);

    engine.drop();
}

#[test]
fn engine_that_is_dropped_before_it_runs_releases_the_inputs() {
    let input = (vec![String::from("a"), String::from("b")],);

    let mut engine = ZipWithIter::<String, _>::new(input);

    engine.drop();

    assert_eq!(engine.rows_started(), 0);
    assert_eq!(engine.rows_written(), 0);
}

#[test]
fn elements_without_size_are_zipped() {
    let a = vec![(), (), ()];
    let b = vec![1u8, 2];

    let result: Result<Vec<()>, Infallible> = try_zip_with_impl((a, (b,)), |_: ((), u8)| Ok(()));

    assert_eq!(result.map(|out| out.len()), Ok(2));
}

#[test]
fn empty_inputs_give_an_empty_result() {
    let a: Vec<u32> = Vec::new();
    let b = vec![1u32, 2];
    let mut calls = 0;

    let result: Result<Vec<u32>, ()> = try_zip_with_impl((a, (b,)), |(x, y): (u32, u32)| {
        calls += 1;
        Ok(x + y)
    });

    assert_eq!(result, Ok(vec![]));
    assert_eq!(calls, 0);
}

#[test]
fn engine_runs_to_the_end() {
    let input = (vec![1u32, 2, 3, 4], (vec![10u32, 20, 30],));

    let engine = ZipWithIter::<u32, _>::new(input);

    let result: Result<Vec<u32>, Infallible> = engine.finish(Each(|(x, y): (u32, u32)| x * y));

    assert_eq!(result, Ok(vec![10, 40, 90]));
}

#[test]
fn three_inputs_are_zipped() {
    let a = vec![1u64, 2, 3];
    let b = vec![10u8, 20, 30];
    let c = vec![100i64, 200, 300, 400];

    let result: Result<Vec<i64>, ()> =
        try_zip_with_impl((a, (b, (c,))), |(x, (y, z)): (u64, (u8, i64))| {
            Ok(x as i64 + i64::from(y) + z)
        });

    assert_eq!(result, Ok(vec![111, 222, 333]));
}

#[test]
fn zip_without_a_matching_layout_collects_anew() {
    let a = vec![1u8, 2, 3];
    let b = vec![10u16, 20];

    let result: Option<Vec<u64>> =
        try_zip_with_impl((a, (b,)), |(x, y): (u8, u16)| Some(u64::from(x) + u64::from(y))).ok();

    assert_eq!(result, Some(vec![11, 22]));
}

#[test]
fn collect_rows_returns_the_first_error() {
    let mut calls = 0;

    let result = collect_rows(
        vec![1, 2, 3, 4],
        TryEach(|x: i32| {
            calls += 1;
            if x > 2 {
                Err(x)
            } else {
                Ok(x)
            }
        }),
    );

    assert_eq!(result, Err(3));
    assert_eq!(calls, 3);
}

#[test]
fn transform_of_each_never_fails() {
    let mut double = Each(|x: u8| u16::from(x) * 2);

    assert_eq!(double.apply(200), Ok(400));
}

#[test]
fn try_of_option_and_result() {
    assert_eq!(Some(1).into_result(), Ok(1));
    assert_eq!(None::<u8>.into_result(), Err(NoneError));
    assert_eq!(Option::<u8>::from_ok(2), Some(2));
    assert_eq!(Option::<u8>::from_error(NoneError), None);

    assert_eq!(Ok::<u8, i8>(1).into_result(), Ok(1));
    assert_eq!(Err::<u8, i8>(-1).into_result(), Err(-1));
    assert_eq!(Result::<u8, i8>::from_ok(2), Ok(2));
    assert_eq!(Result::<u8, i8>::from_error(-2), Err(-2));
}

#[test]
fn try_of_poll() {
    let ready: Poll<Result<u8, i8>> = Poll::Ready(Ok(1));
    assert_eq!(ready.into_result(), Ok(Poll::Ready(1)));
    let failed: Poll<Result<u8, i8>> = Poll::Ready(Err(-1));
    assert_eq!(failed.into_result(), Err(-1));
    let pending: Poll<Result<u8, i8>> = Poll::Pending;
    assert_eq!(pending.into_result(), Ok(Poll::Pending));
    assert_eq!(Poll::<Result<u8, i8>>::from_ok(Poll::Ready(3)), Poll::Ready(Ok(3)));
    assert_eq!(Poll::<Result<u8, i8>>::from_error(-3), Poll::Ready(Err(-3)));

    let some: Poll<Option<Result<u8, i8>>> = Poll::Ready(Some(Ok(1)));
    assert_eq!(some.into_result(), Ok(Poll::Ready(Some(1))));
    let failed: Poll<Option<Result<u8, i8>>> = Poll::Ready(Some(Err(-1)));
    assert_eq!(failed.into_result(), Err(-1));
    let none: Poll<Option<Result<u8, i8>>> = Poll::Ready(None);
    assert_eq!(none.into_result(), Ok(Poll::Ready(None)));
    let pending: Poll<Option<Result<u8, i8>>> = Poll::Pending;
    assert_eq!(pending.into_result(), Ok(Poll::Pending));
    assert_eq!(
        Poll::<Option<Result<u8, i8>>>::from_ok(Poll::Ready(Some(3))),
        Poll::Ready(Some(Ok(3)))
    );
    assert_eq!(Poll::<Option<Result<u8, i8>>>::from_ok(Poll::Ready(None)), Poll::Ready(None));
    assert_eq!(Poll::<Option<Result<u8, i8>>>::from_error(-3), Poll::Ready(Some(Err(-3))));
}
