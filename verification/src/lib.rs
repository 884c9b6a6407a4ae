//! Bulk transformations of owned buffers: `map`, `try_map` and zips of any
//! number of buffers, with the bookkeeping of a transformation in place.
//!
//! A transformation in place writes its results into the allocation of one of
//! its inputs, which is possible whenever the elements of that input have the
//! layout of the results. The engines in this crate decide which input that
//! is, follow every input and the output through the run, and say what has to
//! be released on each way out, also when the transform fails in the middle.
//! They are written in safe code throughout: the elements are held in owned
//! containers, and the allocation that the output stands for is a record in
//! the segments, its capacity and who answers for it.
//!
//! - [`vec`] has the segments and the methods on `Vec`, and
//!   [`vec::general_zip`] the engine for any number of inputs.
//! - [`transform`] says what it means that a buffer is the result of a
//!   transform applied to rows.
//! - [`try_trait`] has the results that a transform may return.
//! - [`boxed`] keeps the layout of the allocation of a box beyond the value.
//! - [`tuple`], [`lazy`] and [`combin`] are other ways to put a zip together.

pub mod boxed;
pub mod combin;
pub mod layout;
pub mod lazy;
pub mod transform;
pub mod try_trait;
pub mod tuple;
pub mod vec;
