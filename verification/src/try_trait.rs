//! Results that can be asked whether they stand for success or for failure.

use vstd::prelude::*;
use core::convert::Infallible;
use std::task::Poll;

verus! {

#[verifier::external_type_specification]
#[verifier::reject_recursive_types(T)]
pub struct ExPoll<T>(Poll<T>);

/// A match on a value of `Infallible`, which has no variants: since there is no
/// such value, this is never reached, and nothing is said of what it returns.
#[verifier::external_body]
pub(crate) fn never<T>(x: Infallible) -> T {
    match x {
    }
}

/// A value that is either a success carrying an `Ok` or a failure carrying an
/// `Error`.
pub trait Try: Sized {
    /// The type of this value when viewed as successful.
    type Ok;

    /// The type of this value when viewed as failed.
    type Error;

    /// The value as a `Result`.
    spec fn result(self) -> Result<Self::Ok, Self::Error>;

    /// `Ok(t)` means that the work goes on with `t`; `Err(e)` means that it
    /// stops and `e` is handed to the caller.
    fn into_result(self) -> (result: Result<Self::Ok, Self::Error>)
        ensures
            result == self.result(),
    ;

    /// Wraps an error value.
    fn from_error(v: Self::Error) -> (wrapped: Self)
        ensures
            wrapped.result() == Err::<Self::Ok, Self::Error>(v),
    ;

    /// Wraps a success value.
    fn from_ok(v: Self::Ok) -> (wrapped: Self)
        ensures
            wrapped.result() == Ok::<Self::Ok, Self::Error>(v),
    ;
}

impl<T, E> Try for Result<T, E> {
    type Ok = T;

    type Error = E;

    open spec fn result(self) -> Result<T, E> {
        self
    }

    fn into_result(self) -> (result: Result<T, E>) {
        self
    }

    fn from_error(v: E) -> (wrapped: Self) {
        Err(v)
    }

    fn from_ok(v: T) -> (wrapped: Self) {
        Ok(v)
    }
}

/// The error of an `Option` that is `None`.
#[derive(Clone, Copy, Debug, PartialEq, Eq, Structural)]
pub struct NoneError;

impl<T> Try for Option<T> {
    type Ok = T;

    type Error = NoneError;

    open spec fn result(self) -> Result<T, NoneError> {
        match self {
            Some(v) => Ok(v),
            None => Err(NoneError),
        }
    }

    fn into_result(self) -> (result: Result<T, NoneError>) {
        match self {
            Some(v) => Ok(v),
            None => Err(NoneError),
        }
    }

    fn from_error(_v: NoneError) -> (wrapped: Self) {
        None
    }

    fn from_ok(v: T) -> (wrapped: Self) {
        Some(v)
    }
}

impl<T, E> Try for Poll<Option<Result<T, E>>> {
    type Ok = Poll<Option<T>>;

    type Error = E;

    open spec fn result(self) -> Result<Poll<Option<T>>, E> {
        match self {
            Poll::Ready(Some(Ok(x))) => Ok(Poll::Ready(Some(x))),
            Poll::Ready(Some(Err(e))) => Err(e),
            Poll::Ready(None) => Ok(Poll::Ready(None)),
            Poll::Pending => Ok(Poll::Pending),
        }
    }

    fn into_result(self) -> (result: Result<Poll<Option<T>>, E>) {
        match self {
            Poll::Ready(Some(Ok(x))) => Ok(Poll::Ready(Some(x))),
            Poll::Ready(Some(Err(e))) => Err(e),
            Poll::Ready(None) => Ok(Poll::Ready(None)),
            Poll::Pending => Ok(Poll::Pending),
        }
    }

    fn from_error(v: E) -> (wrapped: Self) {
        Poll::Ready(Some(Err(v)))
    }

    fn from_ok(v: Poll<Option<T>>) -> (wrapped: Self) {
        match v {
            Poll::Ready(Some(x)) => Poll::Ready(Some(Ok(x))),
            Poll::Ready(None) => Poll::Ready(None),
            Poll::Pending => Poll::Pending,
        }
    }
}

impl<T, E> Try for Poll<Result<T, E>> {
    type Ok = Poll<T>;

    type Error = E;

    open spec fn result(self) -> Result<Poll<T>, E> {
        match self {
            Poll::Ready(Ok(x)) => Ok(Poll::Ready(x)),
            Poll::Ready(Err(e)) => Err(e),
            Poll::Pending => Ok(Poll::Pending),
        }
    }

    fn into_result(self) -> (result: Result<Poll<T>, E>) {
        match self {
            Poll::Ready(Ok(x)) => Ok(Poll::Ready(x)),
            Poll::Ready(Err(e)) => Err(e),
            Poll::Pending => Ok(Poll::Pending),
        }
    }

    fn from_error(e: E) -> (wrapped: Self) {
        Poll::Ready(Err(e))
    }

    fn from_ok(x: Poll<T>) -> (wrapped: Self) {
        match x {
            Poll::Ready(t) => Poll::Ready(Ok(t)),
            Poll::Pending => Poll::Pending,
        }
    }
}

} // verus!
