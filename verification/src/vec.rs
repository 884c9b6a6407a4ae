//! Buffers taken apart: the segment an input is read from and the segment the
//! result is written to, and the methods on `Vec` that are built on them.
//!
//! A segment keeps the books of a buffer that is transformed in place: how
//! far it has been read or written, how much room its allocation has, and who
//! has to free that allocation. The elements themselves are held in owned
//! containers, an input's in a queue that takes the buffer over as it is and
//! an output's in a buffer of its own, so that every step is safe code. What
//! the contracts state is the protocol: which elements are where at each
//! step, that an output is never written beyond the room of the allocation it
//! stands for, and that on every way out each element is released once and
//! each allocation has one party that answers for it.

use vstd::prelude::*;
use std::collections::VecDeque;
use crate::layout::{layout_equivalent, same_layout, Layout};
use crate::transform::{
    accepts_all, lemma_each, lemma_pair, lemma_try_each, lemma_try_pair, mapped, stopped, stopped_at, succeeds,
    try_mapped, try_stopped, try_zip_stopped, try_zipped, Each, Pair, Transform, TryEach, TryPair,
};
use crate::try_trait::Try;
use crate::vec::general_zip::{collect_rows, is_pick, zip_rows, zip_vecs};

pub mod general_zip;

verus! {

/// Who is responsible for the allocation behind an input segment.
#[derive(Clone, Copy, Debug, PartialEq, Eq, Structural)]
pub enum Alloc {
    /// The segment frees the allocation when it is dropped.
    Owned,
    /// The allocation has been handed to an output segment.
    Surrendered,
    /// The segment has given the allocation back to the allocator.
    Freed,
}

/// What an input segment looks like from outside, whatever its elements are.
pub ghost struct Segment {
    /// Layout of the element type.
    pub layout: Layout,
    /// Elements already moved out (the distance of the cursor from the start).
    pub read: nat,
    /// Elements still waiting to be read.
    pub unread: nat,
    /// Capacity of the allocation, in elements.
    pub cap: nat,
    /// Who has to free the allocation.
    pub alloc: Alloc,
}

impl Segment {
    /// The number of elements the buffer held when it was taken over.
    pub open spec fn original_len(self) -> nat {
        self.read + self.unread
    }

    /// The buffer never holds more than its allocation has room for.
    pub open spec fn wf(self) -> bool {
        self.original_len() <= self.cap
    }

    /// Nothing is left to clean up: no element waits and the allocation is not
    /// the segment's to free any more.
    pub open spec fn released(self) -> bool {
        self.unread == 0 && self.alloc != Alloc::Owned
    }

    /// The segment after `count` elements have been moved out.
    pub open spec fn advanced_by(self, count: nat) -> Segment {
        Segment { read: self.read + count, unread: (self.unread - count) as nat, ..self }
    }

    /// The segment after one element has been moved out.
    pub open spec fn advanced(self) -> Segment {
        self.advanced_by(1)
    }

    /// The segment after its allocation has been handed to an output.
    pub open spec fn surrendered(self) -> Segment {
        Segment { alloc: Alloc::Surrendered, ..self }
    }

    /// The segment after its tail has been dropped: no element is left, and
    /// an allocation that was the segment's own has been freed.
    pub open spec fn dropped(self) -> Segment {
        Segment {
            unread: 0,
            alloc: if self.alloc == Alloc::Owned {
                Alloc::Freed
            } else {
                self.alloc
            },
            ..self
        }
    }
}

/// The mathematical value of an [`Input`].
pub ghost struct InputView<T> {
    pub unread: Seq<T>,
    pub read: nat,
    pub cap: nat,
    pub alloc: Alloc,
}

/// `Vec::capacity`: the number of elements the buffer has room for, which is
/// never less than the number it holds.
#[verifier::external_body]
pub(crate) fn capacity_of<T>(vec: &Vec<T>) -> (cap: usize)
    ensures
        cap >= vec@.len(),
{
    vec.capacity()
}

/// `VecDeque::from` on a `Vec`: the same elements in the same order.
#[verifier::external_body]
pub(crate) fn into_queue<T>(vec: Vec<T>) -> (queue: VecDeque<T>)
    ensures
        queue@ == vec@,
{
    VecDeque::from(vec)
}

/// `Vec::from` on a `VecDeque`: the same elements in the same order.
#[verifier::external_body]
pub(crate) fn from_queue<T>(queue: VecDeque<T>) -> (vec: Vec<T>)
    ensures
        vec@ == queue@,
{
    Vec::from(queue)
}

/// An owned buffer taken apart so that its elements can be moved out one by
/// one, front to back.
pub struct Input<T> {
    // the elements that have not been read yet, the next one in front
    items: VecDeque<T>,
    // how far the cursor is from the start
    pos: usize,
    // the capacity of the allocation
    cap: usize,
    alloc: Alloc,
}

impl<T> View for Input<T> {
    type V = InputView<T>;

    closed spec fn view(&self) -> InputView<T> {
        InputView {
            unread: self.items@,
            read: self.pos as nat,
            cap: self.cap as nat,
            alloc: self.alloc,
        }
    }
}

impl<T> Input<T> {
    /// The segment without its elements.
    pub open spec fn segment(&self) -> Segment {
        Segment {
            layout: Layout::of::<T>(),
            read: self@.read,
            unread: self@.unread.len(),
            cap: self@.cap,
            alloc: self@.alloc,
        }
    }

    /// `length <= capacity`, counted from the start of the buffer.
    pub open spec fn wf(&self) -> bool {
        self.segment().wf()
    }

    /// Takes an owned buffer apart. The buffer gives up its elements and its
    /// allocation; the segment is responsible for both from now on.
    pub fn from(vec: Vec<T>) -> (input: Input<T>)
        ensures
            input.wf(),
            input@.unread == vec@,
            input@.read == 0,
            input@.alloc == Alloc::Owned,
    {
        let cap = capacity_of(&vec);
        Input { items: into_queue(vec), pos: 0, cap, alloc: Alloc::Owned }
    }

    /// The number of elements that are still to be read.
    pub fn len(&self) -> (len: usize)
        ensures
            len == self@.unread.len(),
    {
        self.items.len()
    }

    /// The distance of the cursor from the start of the buffer.
    pub fn position(&self) -> (pos: usize)
        ensures
            pos == self@.read,
    {
        self.pos
    }

    /// The capacity of the allocation, in elements.
    pub fn capacity(&self) -> (cap: usize)
        ensures
            cap == self@.cap,
    {
        self.cap
    }

    /// Whether the segment still has to free its allocation.
    pub fn owns_alloc(&self) -> (owns: bool)
        ensures
            owns == (self@.alloc == Alloc::Owned),
    {
        self.alloc == Alloc::Owned
    }

    /// Moves the element under the cursor out and advances the cursor.
    pub fn next(&mut self) -> (value: T)
        requires
            old(self).wf(),
            old(self)@.unread.len() > 0,
        ensures
            final(self).wf(),
            value == old(self)@.unread[0],
            final(self)@ == (InputView {
                unread: old(self)@.unread.drop_first(),
                read: old(self)@.read + 1,
                ..old(self)@
            }),
    {
        let value = self.items.pop_front();
        self.pos = self.pos + 1;
        value.unwrap()
    }

    /// Gives the allocation up: some output segment owns it from now on, and
    /// dropping this segment will not free it.
    pub fn surrender_allocation(&mut self)
        requires
            old(self)@.alloc == Alloc::Owned,
        ensures
            final(self)@ == (InputView { alloc: Alloc::Surrendered, ..old(self)@ }),
    {
        self.alloc = Alloc::Surrendered;
    }

    /// Drops the elements that were not read and then, if the allocation is
    /// still this segment's, frees it.
    pub fn drop(&mut self)
        ensures
            final(self)@ == (InputView {
                unread: Seq::<T>::empty(),
                alloc: if old(self)@.alloc == Alloc::Owned {
                    Alloc::Freed
                } else {
                    old(self)@.alloc
                },
                ..old(self)@
            }),
    {
        self.items.clear();
        if self.alloc == Alloc::Owned {
            self.alloc = Alloc::Freed;
        }
    }
}

/// The mathematical value of an [`Output`].
pub ghost struct OutputView<T> {
    /// The elements written so far, in the order of writing.
    pub written: Seq<T>,
    /// The capacity of the allocation, in elements.
    pub cap: nat,
}

/// A write-only buffer. Its allocation may be the one that an input segment
/// surrendered; who frees it is for the owner of the segment to track.
pub struct Output<T> {
    // the elements written so far
    items: Vec<T>,
    // the capacity of the allocation
    cap: usize,
}

impl<T> View for Output<T> {
    type V = OutputView<T>;

    closed spec fn view(&self) -> OutputView<T> {
        OutputView { written: self.items@, cap: self.cap as nat }
    }
}

impl<T> Output<T> {
    /// The write cursor never leaves the allocation.
    pub open spec fn wf(&self) -> bool {
        self@.written.len() <= self@.cap
    }

    /// An empty output segment over an allocation with room for `cap`
    /// elements.
    pub fn new(cap: usize) -> (output: Output<T>)
        ensures
            output.wf(),
            output@.written == Seq::<T>::empty(),
            output@.cap == cap,
    {
        Output { items: Vec::new(), cap }
    }

    /// The number of elements written so far.
    pub fn len(&self) -> (len: usize)
        ensures
            len == self@.written.len(),
    {
        self.items.len()
    }

    /// The capacity of the allocation, in elements.
    pub fn capacity(&self) -> (cap: usize)
        ensures
            cap == self@.cap,
    {
        self.cap
    }

    /// Writes `value` under the write cursor and advances the cursor.
    pub fn write(&mut self, value: T)
        requires
            old(self)@.written.len() < old(self)@.cap,
        ensures
            final(self).wf(),
            final(self)@ == (OutputView {
                written: old(self)@.written.push(value),
                ..old(self)@
            }),
    {
        self.items.push(value);
    }

    /// Takes the first `initialized` elements out as an owned buffer and
    /// leaves the segment empty.
    pub fn take(&mut self, initialized: usize) -> (buffer: Vec<T>)
        requires
            initialized <= old(self)@.written.len(),
        ensures
            final(self).wf(),
            buffer@ == old(self)@.written.take(initialized as int),
            final(self)@ == (OutputView { written: Seq::<T>::empty(), ..old(self)@ }),
    {
        let mut buffer: Vec<T> = Vec::new();
        core::mem::swap(&mut self.items, &mut buffer);
        buffer.truncate(initialized);
        buffer
    }

    /// Wraps the first `initialized` elements as an owned buffer.
    pub fn into_owned_buffer(self, initialized: usize) -> (buffer: Vec<T>)
        requires
            initialized <= self@.written.len(),
        ensures
            buffer@ == self@.written.take(initialized as int),
    {
        let mut buffer = self.items;
        buffer.truncate(initialized);
        buffer
    }
}

/// Extension methods for `Vec<T>`.
pub trait VecExt: Sized {
    /// The type that the `Vec<T>` stores.
    type T;

    /// The elements of the buffer, in order.
    spec fn elements(&self) -> Seq<Self::T>;

    /// Maps a buffer to another buffer, element by element. If `T` and `U`
    /// have the same layout, the work is done by the engine for a
    /// transformation in place, with the output standing for the allocation
    /// of the buffer; otherwise the results are collected apart.
    fn map<U, F: FnMut(Self::T) -> U>(self, f: F) -> (out: Vec<U>)
        requires
            forall|i: int|
                0 <= i < self.elements().len() ==> call_requires(
                    f,
                    (#[trigger] self.elements()[i],),
                ),
        ensures
            out@.len() == self.elements().len(),
            forall|i: int|
                0 <= i < out@.len() ==> call_ensures(f, (self.elements()[i],), #[trigger] out@[i]),
    ;

    /// Maps a buffer to another buffer, element by element, with a function
    /// that may fail. The first failure ends the work: its error is
    /// returned, and the results so far and the elements that are left are
    /// dropped. Otherwise as [`VecExt::map`].
    fn try_map<U, R: Try<Ok = U>, F: FnMut(Self::T) -> R>(self, f: F) -> (result: Result<
        Vec<U>,
        R::Error,
    >)
        requires
            forall|i: int|
                0 <= i < self.elements().len() ==> call_requires(
                    f,
                    (#[trigger] self.elements()[i],),
                ),
        ensures
            match result {
                Ok(out) => try_mapped(f, self.elements(), out@),
                Err(e) => try_stopped(f, self.elements(), e),
            },
    ;

    /// Walks two buffers in lockstep and combines their elements. The result
    /// is as long as the shorter buffer; what the longer one has in excess
    /// is dropped. If the elements of a buffer have the layout of `V`, the
    /// work is done by the engine for a transformation in place, with the
    /// output standing for the allocation of that buffer: of the larger one
    /// if both qualify, and of `self` if they are equally large. Otherwise
    /// the results are collected apart.
    fn zip_with<U, V, F: FnMut(Self::T, U) -> V>(self, other: Vec<U>, f: F) -> (out: Vec<V>)
        requires
            forall|i: int|
                0 <= i < zip_rows(self.elements(), other@).len() ==> call_requires(
                    f,
                    #[trigger] zip_rows(self.elements(), other@)[i],
                ),
        ensures
            out@.len() == zip_rows(self.elements(), other@).len(),
            forall|i: int|
                0 <= i < out@.len() ==> call_ensures(
                    f,
                    zip_rows(self.elements(), other@)[i],
                    #[trigger] out@[i],
                ),
    ;

    /// Walks two buffers in lockstep and combines their elements with a
    /// function that may fail. The first failure ends the work: its error is
    /// returned, and the results so far and the elements that are left in
    /// either buffer are dropped. Otherwise as [`VecExt::zip_with`].
    fn try_zip_with<U, V, R: Try<Ok = V>, F: FnMut(Self::T, U) -> R>(
        self,
        other: Vec<U>,
        f: F,
    ) -> (result: Result<Vec<V>, R::Error>)
        requires
            forall|i: int|
                0 <= i < zip_rows(self.elements(), other@).len() ==> call_requires(
                    f,
                    #[trigger] zip_rows(self.elements(), other@)[i],
                ),
        ensures
            match result {
                Ok(out) => try_zipped(f, zip_rows(self.elements(), other@), out@),
                Err(e) => try_zip_stopped(f, zip_rows(self.elements(), other@), e),
            },
    ;

    /// Drops all the elements and returns an empty buffer for another
    /// element type. If `T` and `U` have the same layout, the result is the
    /// output of an engine that was given the buffer and found nothing to
    /// transform.
    fn drop_and_reuse<U>(self) -> (out: Vec<U>)
        ensures
            out@ == Seq::<U>::empty(),
    ;
}

/// The engine behind `map`: one input whose allocation is the output's.
struct MapIter<T, U> {
    // the number of results written
    init_len: usize,
    data: Input<T>,
    output: Output<U>,
}

impl<T, U> MapIter<T, U> {
    /// What holds whenever the engine is alive.
    spec fn wf(&self) -> bool {
        &&& self.data.wf()
        &&& self.data@.alloc == Alloc::Surrendered
        &&& self.output@.cap == self.data@.cap
        &&& self.output@.written.len() == self.init_len
    }

    /// Between two elements: every element that was moved out has its result
    /// in the output.
    spec fn running(&self) -> bool {
        self.wf() && self.data@.read == self.init_len
    }

    /// In the middle of an element: it has been moved out and nothing was
    /// written for it.
    spec fn failing(&self) -> bool {
        self.wf() && self.data@.read == self.init_len + 1
    }

    /// Takes the buffer apart and makes its allocation the output.
    fn new(vec: Vec<T>) -> (engine: Self)
        requires
            layout_equivalent::<T, U>(),
        ensures
            engine.running(),
            engine.init_len == 0,
            engine.data@.unread == vec@,
    {
        let mut data = Input::from(vec);
        data.surrender_allocation();
        let output = Output::new(data.capacity());
        MapIter { init_len: 0, data, output }
    }

    /// The drop guard: releases the results written so far, with the
    /// allocation, and the elements that were not moved out.
    fn drop(&mut self)
        requires
            old(self).running() || old(self).failing(),
        ensures
            final(self).data@ == (InputView { unread: Seq::<T>::empty(), ..old(self).data@ }),
            final(self).output@ == (OutputView { written: Seq::<U>::empty(), ..old(self).output@ }),
    {
        // destroy the initialized output
        self.output.take(self.init_len);
        // the element that was moved out last is not here any more; what
        // follows it is
        self.data.drop();
    }

    /// Runs the engine to its end and hands the output out as a buffer. If
    /// the transform fails, the error is returned and everything that the
    /// engine holds is released.
    fn finish<G: Transform<T, Out = U>>(self, g: G) -> (result: Result<Vec<U>, G::Error>)
        requires
            self.running(),
            self.init_len == 0,
            accepts_all(&g, self.data@.unread),
        ensures
            match result {
                Ok(out) => mapped(&g, self.data@.unread, out@),
                Err(e) => stopped(&g, self.data@.unread, e),
            },
    {
        let ghost rows = self.data@.unread;
        let mut engine = self;
        let mut transform = g;
        while engine.data.len() > 0
            invariant
                transform == g,
                rows == self.data@.unread,
                engine.running(),
                rows.len() == engine.init_len + engine.data@.unread.len(),
                engine.data@.unread == rows.skip(engine.init_len as int),
                accepts_all(&g, rows),
                forall|i: int|
                    0 <= i < engine.init_len ==> g.yields(rows[i], #[trigger] engine.output@.written[i]),
            decreases engine.data@.unread.len(),
        {
            let ghost k = engine.init_len as int;
            let ghost written = engine.output@.written;
            let value = engine.data.next();
            assert(value == rows[k]);
            assert(engine.data@.unread =~= rows.skip(k + 1));
            match transform.apply(value) {
                Ok(value) => {
                    engine.output.write(value);
                    engine.init_len = engine.init_len + 1;
                    proof {
                        assert forall|i: int| 0 <= i < k + 1 implies g.yields(
                            rows[i],
                            #[trigger] engine.output@.written[i],
                        ) by {
                            if i < k {
                                assert(engine.output@.written[i] == written[i]);
                            }
                        }
                    }
                },
                Err(e) => {
                    proof {
                        assert forall|i: int| 0 <= i < k implies succeeds(&g, #[trigger] rows[i]) by {
                            assert(g.yields(rows[i], written[i]));
                        }
                        assert(stopped_at(&g, rows, k, e));
                    }
                    engine.drop();
                    return Err(e);
                },
            }
        }
        let len = engine.init_len;
        proof {
            assert(engine.output@.written.take(len as int) =~= engine.output@.written);
        }
        Ok(engine.output.into_owned_buffer(len))
    }

    /// Runs the engine to its end with `f` as the transform.
    fn try_into_vec<R: Try<Ok = U>, F: FnMut(T) -> R>(self, f: F) -> (result: Result<
        Vec<U>,
        R::Error,
    >)
        requires
            self.running(),
            self.init_len == 0,
            forall|i: int|
                0 <= i < self.data@.unread.len() ==> call_requires(
                    f,
                    (#[trigger] self.data@.unread[i],),
                ),
        ensures
            match result {
                Ok(out) => try_mapped(f, self.data@.unread, out@),
                Err(e) => try_stopped(f, self.data@.unread, e),
            },
    {
        proof {
            lemma_try_each(f, self.data@.unread);
        }
        self.finish(TryEach(f))
    }
}

/// Which of two inputs gives its allocation to the result.
#[derive(Clone, Copy, Debug, PartialEq, Eq, Structural)]
pub enum Side {
    Left,
    Right,
}

/// The input that gives its allocation to the result: one whose layout
/// agrees with that of the results, the larger one if both do, and the left
/// one if they are equally large.
pub open spec fn picked_side(
    left_matches: bool,
    right_matches: bool,
    left_cap: usize,
    right_cap: usize,
) -> Option<Side> {
    if left_matches && (!right_matches || left_cap >= right_cap) {
        Some(Side::Left)
    } else if right_matches {
        Some(Side::Right)
    } else {
        None
    }
}

/// Between two inputs the side is picked by the rule that picks among any
/// number of them.
pub proof fn lemma_picked_side(left: Segment, right: Segment, target: Layout)
    requires
        left.cap <= usize::MAX,
        right.cap <= usize::MAX,
    ensures
        match picked_side(
            left.layout == target,
            right.layout == target,
            left.cap as usize,
            right.cap as usize,
        ) {
            Some(Side::Left) => is_pick(seq![left, right], target, 0),
            Some(Side::Right) => is_pick(seq![left, right], target, 1),
            None => forall|k: int| !is_pick(seq![left, right], target, k),
        },
{
    let segs = seq![left, right];
    assert(segs[0] == left);
    assert(segs[1] == right);
}

/// Decides which of two inputs gives its allocation to the result, from
/// whether the elements of each have the layout of the results and from the
/// two capacities.
pub fn pick_side(left_matches: bool, right_matches: bool, left_cap: usize, right_cap: usize) -> (side:
    Option<Side>)
    ensures
        side == picked_side(left_matches, right_matches, left_cap, right_cap),
{
    match (left_matches, right_matches, left_cap >= right_cap) {
        (true, true, true) | (true, false, _) => Some(Side::Left),
        (true, true, false) | (false, true, _) => Some(Side::Right),
        (false, false, _) => None,
    }
}

/// The engine behind `zip_with`: two inputs that are read in lockstep, and
/// an output whose allocation is that of one of them.
struct ZipWithIter<T, U, V> {
    left: Input<T>,
    right: Input<U>,
    // the buffer that the results are written into
    output: Output<V>,
    // the number of rows at the start
    init_len: usize,
    // the number of rows that were not started yet
    min_len: usize,
}

impl<T, U, V> ZipWithIter<T, U, V> {
    /// The two data segments, without their elements.
    spec fn segments(&self) -> Seq<Segment> {
        seq![self.left.segment(), self.right.segment()]
    }

    /// The rows that have not been moved out of the inputs.
    spec fn rows(&self) -> Seq<(T, U)> {
        zip_rows(self.left@.unread, self.right@.unread)
    }

    /// The number of rows that were started.
    spec fn started(&self) -> int {
        self.init_len - self.min_len
    }

    /// What holds whenever the engine is alive.
    spec fn wf(&self) -> bool {
        &&& self.left.wf()
        &&& self.right.wf()
        &&& self.min_len <= self.init_len
        &&& self.left@.read == self.started()
        &&& self.right@.read == self.started()
        &&& self.rows().len() == self.min_len
        &&& self.init_len <= self.output@.cap
    }

    /// Between two rows: every row that was started has its result in the
    /// output.
    spec fn running(&self) -> bool {
        self.wf() && self.output@.written.len() == self.started()
    }

    /// In the middle of a row: it has been moved out of the inputs and nothing
    /// was written for it.
    spec fn failing(&self) -> bool {
        self.wf() && self.output@.written.len() + 1 == self.started()
    }

    /// Takes the two segments over and makes the allocation of the one on
    /// `side` the output.
    fn new(left: Input<T>, right: Input<U>, side: Side) -> (engine: Self)
        requires
            left.wf(),
            right.wf(),
            left@.read == 0,
            right@.read == 0,
            left@.alloc == Alloc::Owned,
            right@.alloc == Alloc::Owned,
        ensures
            engine.running(),
            engine.rows() == zip_rows(left@.unread, right@.unread),
            engine.init_len == engine.min_len,
            engine.left@ == (InputView {
                alloc: if side == Side::Left {
                    Alloc::Surrendered
                } else {
                    Alloc::Owned
                },
                ..left@
            }),
            engine.right@ == (InputView {
                alloc: if side == Side::Right {
                    Alloc::Surrendered
                } else {
                    Alloc::Owned
                },
                ..right@
            }),
            engine.output@ == (OutputView {
                written: Seq::<V>::empty(),
                cap: if side == Side::Left {
                    left@.cap
                } else {
                    right@.cap
                },
            }),
    {
        let mut left = left;
        let mut right = right;
        let len = if left.len() <= right.len() {
            left.len()
        } else {
            right.len()
        };
        let output = match side {
            Side::Left => {
                left.surrender_allocation();
                Output::new(left.capacity())
            },
            Side::Right => {
                right.surrender_allocation();
                Output::new(right.capacity())
            },
        };
        ZipWithIter { left, right, output, init_len: len, min_len: len }
    }

    /// The drop guard: releases the results written so far, with the
    /// allocation of the output, the elements of both inputs that were not
    /// moved out, and the allocation of the input that kept its own.
    fn drop(&mut self)
        requires
            old(self).running() || old(self).failing(),
        ensures
            final(self).left.segment() == old(self).left.segment().dropped(),
            final(self).right.segment() == old(self).right.segment().dropped(),
            final(self).rows() == Seq::<(T, U)>::empty(),
            final(self).output@ == (OutputView { written: Seq::<V>::empty(), ..old(self).output@ }),
    {
        // drop the output that was already calculated
        let written = self.output.len();
        self.output.take(written);
        // drop the remaining parts of the two inputs and free what they own
        self.left.drop();
        self.right.drop();
        proof {
            assert(self.rows() =~= Seq::<(T, U)>::empty());
        }
    }

    /// Runs the engine to its end and hands the output out as a buffer. If
    /// the transform fails, the error is returned and everything that the
    /// engine holds is released.
    fn finish<G: Transform<(T, U), Out = V>>(self, g: G) -> (result: Result<Vec<V>, G::Error>)
        requires
            self.running(),
            self.init_len == self.min_len,
            accepts_all(&g, self.rows()),
        ensures
            match result {
                Ok(out) => mapped(&g, self.rows(), out@),
                Err(e) => stopped(&g, self.rows(), e),
            },
    {
        let ghost rows = self.rows();
        let mut engine = self;
        let mut transform = g;
        proof {
            assert(engine.rows() =~= rows.skip(0));
        }
        // reads from left and right in lockstep and passes the two values to
        // the transform
        while engine.min_len > 0
            invariant
                transform == g,
                rows == self.rows(),
                engine.running(),
                engine.init_len == rows.len(),
                engine.rows() == rows.skip(engine.started()),
                accepts_all(&g, rows),
                forall|i: int|
                    0 <= i < engine.started() ==> g.yields(
                        rows[i],
                        #[trigger] engine.output@.written[i],
                    ),
            decreases engine.min_len,
        {
            let ghost k = engine.started();
            let ghost written = engine.output@.written;
            let ghost before = engine.rows();
            engine.min_len = engine.min_len - 1;
            let x = engine.left.next();
            let y = engine.right.next();
            proof {
                assert((x, y) == before[0]);
                assert(before[0] == rows[k]);
                assert forall|i: int| 0 <= i < engine.rows().len() implies engine.rows()[i]
                    == rows.skip(k + 1)[i] by {
                    assert(engine.rows()[i] == before[i + 1]);
                }
                assert(engine.rows() =~= rows.skip(k + 1));
            }
            match transform.apply((x, y)) {
                Ok(value) => {
                    engine.output.write(value);
                    proof {
                        assert forall|i: int| 0 <= i < k + 1 implies g.yields(
                            rows[i],
                            #[trigger] engine.output@.written[i],
                        ) by {
                            if i < k {
                                assert(engine.output@.written[i] == written[i]);
                            }
                        }
                    }
                },
                Err(e) => {
                    proof {
                        assert forall|i: int| 0 <= i < k implies succeeds(&g, #[trigger] rows[i]) by {
                            assert(g.yields(rows[i], written[i]));
                        }
                        assert(stopped_at(&g, rows, k, e));
                    }
                    engine.drop();
                    return Err(e);
                },
            }
        }
        let len = engine.init_len;
        proof {
            assert(engine.output@.written.take(len as int) =~= engine.output@.written);
        }
        // what the longer input has in excess is dropped, and the input that
        // kept its allocation frees it
        engine.left.drop();
        engine.right.drop();
        Ok(engine.output.into_owned_buffer(len))
    }
}

/// Walks two buffers in lockstep and applies the transform to every pair of
/// elements. If the elements of either buffer have the layout of the results,
/// the allocation of one such buffer is kept for the result; otherwise the
/// result is collected in a new buffer.
fn zip_with_transform<T, U, G: Transform<(T, U)>>(left: Vec<T>, right: Vec<U>, g: G) -> (result:
    Result<Vec<G::Out>, G::Error>)
    requires
        accepts_all(&g, zip_rows(left@, right@)),
    ensures
        match result {
            Ok(out) => mapped(&g, zip_rows(left@, right@), out@),
            Err(e) => stopped(&g, zip_rows(left@, right@), e),
        },
{
    let left_matches = same_layout::<T, G::Out>();
    let right_matches = same_layout::<U, G::Out>();
    if !left_matches && !right_matches {
        return collect_rows(zip_vecs(left, right), g);
    }
    let left = Input::from(left);
    let right = Input::from(right);
    match pick_side(left_matches, right_matches, left.capacity(), right.capacity()) {
        Some(side) => ZipWithIter::<T, U, G::Out>::new(left, right, side).finish(g),
        None => unreached(),
    }
}

impl<T> VecExt for Vec<T> {
    type T = T;

    open spec fn elements(&self) -> Seq<T> {
        self@
    }

    fn map<U, F: FnMut(T) -> U>(self, f: F) -> (out: Vec<U>) {
        proof {
            assert(self.elements() == self@);
            lemma_each(f, self@);
        }
        let result = if same_layout::<T, U>() {
            MapIter::<T, U>::new(self).finish(Each(f))
        } else {
            collect_rows(self, Each(f))
        };
        match result {
            Ok(out) => out,
            Err(e) => unreached(),
        }
    }

    fn try_map<U, R: Try<Ok = U>, F: FnMut(T) -> R>(self, f: F) -> (result: Result<
        Vec<U>,
        R::Error,
    >) {
        proof {
            assert(self.elements() == self@);
            lemma_try_each(f, self@);
        }
        if same_layout::<T, U>() {
            MapIter::<T, U>::new(self).finish(TryEach(f))
        } else {
            collect_rows(self, TryEach(f))
        }
    }

    fn zip_with<U, V, F: FnMut(T, U) -> V>(self, other: Vec<U>, f: F) -> (out: Vec<V>) {
        proof {
            assert(self.elements() == self@);
            lemma_pair(f, zip_rows(self@, other@));
        }
        match zip_with_transform(self, other, Pair(f)) {
            Ok(out) => out,
            Err(e) => unreached(),
        }
    }

    fn try_zip_with<U, V, R: Try<Ok = V>, F: FnMut(T, U) -> R>(
        self,
        other: Vec<U>,
        f: F,
    ) -> (result: Result<Vec<V>, R::Error>) {
        proof {
            assert(self.elements() == self@);
            lemma_try_pair(f, zip_rows(self@, other@));
        }
        zip_with_transform(self, other, TryPair(f))
    }

    fn drop_and_reuse<U>(self) -> (out: Vec<U>) {
        let mut vec = self;
        vec.clear();
        if same_layout::<T, U>() {
            // no more elements in the buffer: there is nothing to transform,
            // and the output is handed out as it is
            let engine = MapIter::<T, U>::new(vec);
            engine.output.into_owned_buffer(0)
        } else {
            Vec::new()
        }
    }
}

} // verus!
