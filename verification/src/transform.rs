//! What is done to a row: the transforms that the engines apply, one row at a
//! time, and what it means that a buffer is the result of applying one.

use vstd::prelude::*;
use core::convert::Infallible;
use crate::try_trait::Try;

verus! {

/// A transform of rows that may fail.
pub trait Transform<Row>: Sized {
    /// What a row is turned into.
    type Out;

    /// What a failure carries.
    type Error;

    /// The transform may be applied to `row`.
    spec fn accepts(&self, row: Row) -> bool;

    /// The transform may turn `row` into `out`.
    spec fn yields(&self, row: Row, out: Self::Out) -> bool;

    /// The transform may fail on `row` with `error`.
    spec fn fails(&self, row: Row, error: Self::Error) -> bool;

    /// Applies the transform to one row.
    fn apply(&mut self, row: Row) -> (result: Result<Self::Out, Self::Error>)
        requires
            old(self).accepts(row),
        ensures
            *final(self) == *old(self),
            match result {
                Ok(out) => old(self).yields(row, out),
                Err(error) => old(self).fails(row, error),
            },
    ;
}

/// A function of one argument whose result says whether it succeeded.
pub struct TryEach<F>(pub F);

/// A function of one argument that cannot fail.
pub struct Each<F>(pub F);

/// A function of two arguments whose result says whether it succeeded;
/// applied to pairs.
pub struct TryPair<F>(pub F);

/// A function of two arguments that cannot fail; applied to pairs.
pub struct Pair<F>(pub F);

impl<T, R: Try, F: FnMut(T) -> R> Transform<T> for TryEach<F> {
    type Out = R::Ok;

    type Error = R::Error;

    open spec fn accepts(&self, row: T) -> bool {
        call_requires(self.0, (row,))
    }

    open spec fn yields(&self, row: T, out: R::Ok) -> bool {
        exists|r: R| #[trigger] call_ensures(self.0, (row,), r) && r.result() == Ok::<R::Ok, R::Error>(out)
    }

    open spec fn fails(&self, row: T, error: R::Error) -> bool {
        exists|r: R| #[trigger] call_ensures(self.0, (row,), r) && r.result() == Err::<R::Ok, R::Error>(error)
    }

    fn apply(&mut self, row: T) -> (result: Result<R::Ok, R::Error>) {
        (self.0)(row).into_result()
    }
}

impl<T, U, F: FnMut(T) -> U> Transform<T> for Each<F> {
    type Out = U;

    type Error = Infallible;

    open spec fn accepts(&self, row: T) -> bool {
        call_requires(self.0, (row,))
    }

    open spec fn yields(&self, row: T, out: U) -> bool {
        call_ensures(self.0, (row,), out)
    }

    open spec fn fails(&self, row: T, error: Infallible) -> bool {
        false
    }

    fn apply(&mut self, row: T) -> (result: Result<U, Infallible>) {
        Ok((self.0)(row))
    }
}

impl<T, U, R: Try, F: FnMut(T, U) -> R> Transform<(T, U)> for TryPair<F> {
    type Out = R::Ok;

    type Error = R::Error;

    open spec fn accepts(&self, row: (T, U)) -> bool {
        call_requires(self.0, row)
    }

    open spec fn yields(&self, row: (T, U), out: R::Ok) -> bool {
        exists|r: R| #[trigger] call_ensures(self.0, row, r) && r.result() == Ok::<R::Ok, R::Error>(out)
    }

    open spec fn fails(&self, row: (T, U), error: R::Error) -> bool {
        exists|r: R| #[trigger] call_ensures(self.0, row, r) && r.result() == Err::<R::Ok, R::Error>(error)
    }

    fn apply(&mut self, row: (T, U)) -> (result: Result<R::Ok, R::Error>) {
        (self.0)(row.0, row.1).into_result()
    }
}

impl<T, U, V, F: FnMut(T, U) -> V> Transform<(T, U)> for Pair<F> {
    type Out = V;

    type Error = Infallible;

    open spec fn accepts(&self, row: (T, U)) -> bool {
        call_requires(self.0, row)
    }

    open spec fn yields(&self, row: (T, U), out: V) -> bool {
        call_ensures(self.0, row, out)
    }

    open spec fn fails(&self, row: (T, U), error: Infallible) -> bool {
        false
    }

    fn apply(&mut self, row: (T, U)) -> (result: Result<V, Infallible>) {
        Ok((self.0)(row.0, row.1))
    }
}

/// The transform may be applied to every row.
pub open spec fn accepts_all<Row, G: Transform<Row>>(g: &G, rows: Seq<Row>) -> bool {
    forall|i: int| 0 <= i < rows.len() ==> g.accepts(#[trigger] rows[i])
}

/// `out` is what the transform made of `rows`, row by row.
pub open spec fn mapped<Row, G: Transform<Row>>(g: &G, rows: Seq<Row>, out: Seq<G::Out>) -> bool {
    &&& out.len() == rows.len()
    &&& forall|i: int| 0 <= i < rows.len() ==> g.yields(rows[i], #[trigger] out[i])
}

/// The transform may succeed on `row`.
pub open spec fn succeeds<Row, G: Transform<Row>>(g: &G, row: Row) -> bool {
    exists|out: G::Out| g.yields(row, out)
}

/// The transform succeeded on the rows before the `k`-th and failed on that
/// one with `error`.
pub open spec fn stopped_at<Row, G: Transform<Row>>(
    g: &G,
    rows: Seq<Row>,
    k: int,
    error: G::Error,
) -> bool {
    &&& 0 <= k < rows.len()
    &&& g.fails(rows[k], error)
    &&& forall|i: int| 0 <= i < k ==> succeeds(g, #[trigger] rows[i])
}

/// The transform failed on some row with `error`, after succeeding on all the
/// rows before it.
pub open spec fn stopped<Row, G: Transform<Row>>(g: &G, rows: Seq<Row>, error: G::Error) -> bool {
    exists|k: int| stopped_at(g, rows, k, error)
}

/// `f` may turn `x` into the success value `y`.
pub open spec fn maps_to<T, R: Try, F: FnMut(T) -> R>(f: F, x: T, y: R::Ok) -> bool {
    exists|r: R| #[trigger] call_ensures(f, (x,), r) && r.result() == Ok::<R::Ok, R::Error>(y)
}

/// `f` may fail on `x` with the error `e`.
pub open spec fn fails_with<T, R: Try, F: FnMut(T) -> R>(f: F, x: T, e: R::Error) -> bool {
    exists|r: R| #[trigger] call_ensures(f, (x,), r) && r.result() == Err::<R::Ok, R::Error>(e)
}

/// `f` may succeed on `x`.
pub open spec fn may_succeed<T, R: Try, F: FnMut(T) -> R>(f: F, x: T) -> bool {
    exists|y: R::Ok| maps_to(f, x, y)
}

/// `out` is what `f` made of `rows`, row by row, succeeding on each.
pub open spec fn try_mapped<T, R: Try, F: FnMut(T) -> R>(
    f: F,
    rows: Seq<T>,
    out: Seq<R::Ok>,
) -> bool {
    &&& out.len() == rows.len()
    &&& forall|i: int| 0 <= i < rows.len() ==> maps_to(f, rows[i], #[trigger] out[i])
}

/// `f` failed on the `k`-th row with the error `e`, after succeeding on all
/// the rows before it.
pub open spec fn try_stopped_at<T, R: Try, F: FnMut(T) -> R>(
    f: F,
    rows: Seq<T>,
    k: int,
    e: R::Error,
) -> bool {
    &&& 0 <= k < rows.len()
    &&& fails_with(f, rows[k], e)
    &&& forall|i: int| 0 <= i < k ==> may_succeed(f, #[trigger] rows[i])
}

/// `f` failed on some row with the error `e`, after succeeding on all the
/// rows before it.
pub open spec fn try_stopped<T, R: Try, F: FnMut(T) -> R>(f: F, rows: Seq<T>, e: R::Error) -> bool {
    exists|k: int| try_stopped_at(f, rows, k, e)
}

/// What [`TryEach`] makes of rows is what its function makes of them.
pub proof fn lemma_try_each<T, R: Try, F: FnMut(T) -> R>(f: F, rows: Seq<T>)
    ensures
        accepts_all(&TryEach(f), rows) <==> forall|i: int|
            0 <= i < rows.len() ==> call_requires(f, (#[trigger] rows[i],)),
        forall|out: Seq<R::Ok>| #[trigger]
            mapped(&TryEach(f), rows, out) <==> try_mapped(f, rows, out),
        forall|k: int, e: R::Error| #[trigger]
            stopped_at(&TryEach(f), rows, k, e) <==> try_stopped_at(f, rows, k, e),
        forall|e: R::Error| #[trigger] stopped(&TryEach(f), rows, e) <==> try_stopped(f, rows, e),
{
    let g = TryEach(f);
    assert(accepts_all(&g, rows) <==> forall|i: int|
        0 <= i < rows.len() ==> call_requires(f, (#[trigger] rows[i],))) by {
        if accepts_all(&g, rows) {
            assert forall|i: int| 0 <= i < rows.len() implies call_requires(
                f,
                (#[trigger] rows[i],),
            ) by {
                assert(g.accepts(rows[i]));
            }
        }
    }
    assert forall|out: Seq<R::Ok>| #[trigger]
        mapped(&g, rows, out) <==> try_mapped(f, rows, out) by {
        if mapped(&g, rows, out) {
            assert forall|i: int| 0 <= i < rows.len() implies maps_to(f, rows[i], #[trigger] out[i]) by {
                assert(g.yields(rows[i], out[i]));
            }
        }
        if try_mapped(f, rows, out) {
            assert forall|i: int| 0 <= i < rows.len() implies g.yields(rows[i], #[trigger] out[i]) by {
                assert(maps_to(f, rows[i], out[i]));
            }
        }
    }
    assert forall|k: int, e: R::Error| #[trigger]
        stopped_at(&g, rows, k, e) <==> try_stopped_at(f, rows, k, e) by {
        if stopped_at(&g, rows, k, e) {
            assert(g.fails(rows[k], e));
            assert(fails_with(f, rows[k], e));
            assert forall|i: int| 0 <= i < k implies may_succeed(f, #[trigger] rows[i]) by {
                assert(succeeds(&g, rows[i]));
                let y = choose|y: R::Ok| g.yields(rows[i], y);
                assert(maps_to(f, rows[i], y));
            }
        }
        if try_stopped_at(f, rows, k, e) {
            assert(fails_with(f, rows[k], e));
            assert(g.fails(rows[k], e));
            assert forall|i: int| 0 <= i < k implies succeeds(&g, #[trigger] rows[i]) by {
                assert(may_succeed(f, rows[i]));
                let y = choose|y: R::Ok| maps_to(f, rows[i], y);
                assert(g.yields(rows[i], y));
            }
        }
    }
    assert forall|e: R::Error| #[trigger] stopped(&g, rows, e) <==> try_stopped(f, rows, e) by {
        if stopped(&g, rows, e) {
            let k = choose|k: int| stopped_at(&g, rows, k, e);
            assert(try_stopped_at(f, rows, k, e));
        }
        if try_stopped(f, rows, e) {
            let k = choose|k: int| try_stopped_at(f, rows, k, e);
            assert(stopped_at(&g, rows, k, e));
        }
    }
}

/// What [`Each`] makes of rows is what its function makes of them, and it
/// never fails.
pub proof fn lemma_each<T, U, F: FnMut(T) -> U>(f: F, rows: Seq<T>)
    ensures
        accepts_all(&Each(f), rows) <==> forall|i: int|
            0 <= i < rows.len() ==> call_requires(f, (#[trigger] rows[i],)),
        forall|out: Seq<U>| #[trigger]
            mapped(&Each(f), rows, out) <==> {
                &&& out.len() == rows.len()
                &&& forall|i: int| 0 <= i < rows.len() ==> call_ensures(f, (rows[i],), #[trigger] out[i])
            },
        forall|e: Infallible| !#[trigger] stopped(&Each(f), rows, e),
{
    let g = Each(f);
    assert(accepts_all(&g, rows) <==> forall|i: int|
        0 <= i < rows.len() ==> call_requires(f, (#[trigger] rows[i],))) by {
        if accepts_all(&g, rows) {
            assert forall|i: int| 0 <= i < rows.len() implies call_requires(
                f,
                (#[trigger] rows[i],),
            ) by {
                assert(g.accepts(rows[i]));
            }
        }
    }
    assert forall|out: Seq<U>| #[trigger]
        mapped(&g, rows, out) <==> {
            &&& out.len() == rows.len()
            &&& forall|i: int| 0 <= i < rows.len() ==> call_ensures(f, (rows[i],), #[trigger] out[i])
        } by {
        if mapped(&g, rows, out) {
            assert forall|i: int| 0 <= i < rows.len() implies call_ensures(
                f,
                (rows[i],),
                #[trigger] out[i],
            ) by {
                assert(g.yields(rows[i], out[i]));
            }
        }
    }
    assert forall|e: Infallible| !#[trigger] stopped(&g, rows, e) by {
        if stopped(&g, rows, e) {
            let k = choose|k: int| stopped_at(&g, rows, k, e);
            assert(g.fails(rows[k], e));
        }
    }
}

/// What [`Pair`] makes of pairs is what its function makes of them, and it
/// never fails.
pub proof fn lemma_pair<T, U, V, F: FnMut(T, U) -> V>(f: F, rows: Seq<(T, U)>)
    ensures
        accepts_all(&Pair(f), rows) <==> forall|i: int|
            0 <= i < rows.len() ==> call_requires(f, #[trigger] rows[i]),
        forall|out: Seq<V>| #[trigger]
            mapped(&Pair(f), rows, out) <==> {
                &&& out.len() == rows.len()
                &&& forall|i: int| 0 <= i < rows.len() ==> call_ensures(f, rows[i], #[trigger] out[i])
            },
        forall|e: Infallible| !#[trigger] stopped(&Pair(f), rows, e),
{
    let g = Pair(f);
    assert(accepts_all(&g, rows) <==> forall|i: int|
        0 <= i < rows.len() ==> call_requires(f, #[trigger] rows[i])) by {
        if accepts_all(&g, rows) {
            assert forall|i: int| 0 <= i < rows.len() implies call_requires(
                f,
                #[trigger] rows[i],
            ) by {
                assert(g.accepts(rows[i]));
            }
        }
    }
    assert forall|out: Seq<V>| #[trigger]
        mapped(&g, rows, out) <==> {
            &&& out.len() == rows.len()
            &&& forall|i: int| 0 <= i < rows.len() ==> call_ensures(f, rows[i], #[trigger] out[i])
        } by {
        if mapped(&g, rows, out) {
            assert forall|i: int| 0 <= i < rows.len() implies call_ensures(
                f,
                rows[i],
                #[trigger] out[i],
            ) by {
                assert(g.yields(rows[i], out[i]));
            }
        }
    }
    assert forall|e: Infallible| !#[trigger] stopped(&g, rows, e) by {
        if stopped(&g, rows, e) {
            let k = choose|k: int| stopped_at(&g, rows, k, e);
            assert(g.fails(rows[k], e));
        }
    }
}

/// `f` may turn the pair `row` into the success value `y`.
pub open spec fn pair_maps_to<T, U, R: Try, F: FnMut(T, U) -> R>(f: F, row: (T, U), y: R::Ok) -> bool {
    exists|r: R| #[trigger] call_ensures(f, row, r) && r.result() == Ok::<R::Ok, R::Error>(y)
}

/// `f` may fail on the pair `row` with the error `e`.
pub open spec fn pair_fails_with<T, U, R: Try, F: FnMut(T, U) -> R>(
    f: F,
    row: (T, U),
    e: R::Error,
) -> bool {
    exists|r: R| #[trigger] call_ensures(f, row, r) && r.result() == Err::<R::Ok, R::Error>(e)
}

/// `f` may succeed on the pair `row`.
pub open spec fn pair_may_succeed<T, U, R: Try, F: FnMut(T, U) -> R>(f: F, row: (T, U)) -> bool {
    exists|y: R::Ok| pair_maps_to(f, row, y)
}

/// `out` is what `f` made of the pairs `rows`, one by one, succeeding on
/// each.
pub open spec fn try_zipped<T, U, R: Try, F: FnMut(T, U) -> R>(
    f: F,
    rows: Seq<(T, U)>,
    out: Seq<R::Ok>,
) -> bool {
    &&& out.len() == rows.len()
    &&& forall|i: int| 0 <= i < rows.len() ==> pair_maps_to(f, rows[i], #[trigger] out[i])
}

/// `f` failed on the `k`-th pair with the error `e`, after succeeding on all
/// the pairs before it.
pub open spec fn try_zip_stopped_at<T, U, R: Try, F: FnMut(T, U) -> R>(
    f: F,
    rows: Seq<(T, U)>,
    k: int,
    e: R::Error,
) -> bool {
    &&& 0 <= k < rows.len()
    &&& pair_fails_with(f, rows[k], e)
    &&& forall|i: int| 0 <= i < k ==> pair_may_succeed(f, #[trigger] rows[i])
}

/// `f` failed on some pair with the error `e`, after succeeding on all the
/// pairs before it.
pub open spec fn try_zip_stopped<T, U, R: Try, F: FnMut(T, U) -> R>(
    f: F,
    rows: Seq<(T, U)>,
    e: R::Error,
) -> bool {
    exists|k: int| try_zip_stopped_at(f, rows, k, e)
}

/// What [`TryPair`] makes of pairs is what its function makes of them.
pub proof fn lemma_try_pair<T, U, R: Try, F: FnMut(T, U) -> R>(f: F, rows: Seq<(T, U)>)
    ensures
        accepts_all(&TryPair(f), rows) <==> forall|i: int|
            0 <= i < rows.len() ==> call_requires(f, #[trigger] rows[i]),
        forall|out: Seq<R::Ok>| #[trigger]
            mapped(&TryPair(f), rows, out) <==> try_zipped(f, rows, out),
        forall|k: int, e: R::Error| #[trigger]
            stopped_at(&TryPair(f), rows, k, e) <==> try_zip_stopped_at(f, rows, k, e),
        forall|e: R::Error| #[trigger]
            stopped(&TryPair(f), rows, e) <==> try_zip_stopped(f, rows, e),
{
    let g = TryPair(f);
    assert(accepts_all(&g, rows) <==> forall|i: int|
        0 <= i < rows.len() ==> call_requires(f, #[trigger] rows[i])) by {
        if accepts_all(&g, rows) {
            assert forall|i: int| 0 <= i < rows.len() implies call_requires(
                f,
                #[trigger] rows[i],
            ) by {
                assert(g.accepts(rows[i]));
            }
        }
    }
    assert forall|out: Seq<R::Ok>| #[trigger]
        mapped(&g, rows, out) <==> try_zipped(f, rows, out) by {
        if mapped(&g, rows, out) {
            assert forall|i: int| 0 <= i < rows.len() implies pair_maps_to(
                f,
                rows[i],
                #[trigger] out[i],
            ) by {
                assert(g.yields(rows[i], out[i]));
            }
        }
        if try_zipped(f, rows, out) {
            assert forall|i: int| 0 <= i < rows.len() implies g.yields(rows[i], #[trigger] out[i]) by {
                assert(pair_maps_to(f, rows[i], out[i]));
            }
        }
    }
    assert forall|k: int, e: R::Error| #[trigger]
        stopped_at(&g, rows, k, e) <==> try_zip_stopped_at(f, rows, k, e) by {
        if stopped_at(&g, rows, k, e) {
            assert(g.fails(rows[k], e));
            assert(pair_fails_with(f, rows[k], e));
            assert forall|i: int| 0 <= i < k implies pair_may_succeed(f, #[trigger] rows[i]) by {
                assert(succeeds(&g, rows[i]));
                let y = choose|y: R::Ok| g.yields(rows[i], y);
                assert(pair_maps_to(f, rows[i], y));
            }
        }
        if try_zip_stopped_at(f, rows, k, e) {
            assert(pair_fails_with(f, rows[k], e));
            assert(g.fails(rows[k], e));
            assert forall|i: int| 0 <= i < k implies succeeds(&g, #[trigger] rows[i]) by {
                assert(pair_may_succeed(f, rows[i]));
                let y = choose|y: R::Ok| pair_maps_to(f, rows[i], y);
                assert(g.yields(rows[i], y));
            }
        }
    }
    assert forall|e: R::Error| #[trigger]
        stopped(&g, rows, e) <==> try_zip_stopped(f, rows, e) by {
        if stopped(&g, rows, e) {
            let k = choose|k: int| stopped_at(&g, rows, k, e);
            assert(try_zip_stopped_at(f, rows, k, e));
        }
        if try_zip_stopped(f, rows, e) {
            let k = choose|k: int| try_zip_stopped_at(f, rows, k, e);
            assert(stopped_at(&g, rows, k, e));
        }
    }
}

} // verus!
