//! Data segments whose type says what they are used for.

use vstd::prelude::*;
use core::convert::Infallible;
use std::collections::VecDeque;
use crate::combin::{IntoVecIter, VecIter};
use crate::layout::{same_layout, Layout};
use crate::vec::general_zip::{is_pick, lemma_pick_unique, pick};
use crate::vec::{capacity_of, from_queue, into_queue, Alloc, Segment};

verus! {

/// What a data segment is used for.
pub trait State: Sized {
    /// Whether a segment that is used in this way frees the allocation when
    /// it is dropped.
    spec fn owns_alloc() -> bool;

    /// Releases what a segment that is used in this way holds: its elements
    /// and, if the allocation is its own, the allocation.
    fn drop<T>(v: &mut Data<T, Self>)
        ensures
            final(v)@ == (DataView { items: Seq::<T>::empty(), ..old(v)@ }),
    ;
}

/// A use in which elements are moved out of the segment.
pub trait InputState: State {

}

/// A whole buffer, neither read from nor written to.
pub struct Init;

/// A buffer that is read and that keeps its allocation.
pub struct Input;

/// A buffer that is read and whose allocation belongs to an output.
pub struct Split;

/// A buffer that is written.
pub struct Output;

impl State for Init {
    open spec fn owns_alloc() -> bool {
        true
    }

    fn drop<T>(v: &mut Data<T, Self>) {
        v.raw.items.clear();
    }
}

impl State for Output {
    open spec fn owns_alloc() -> bool {
        true
    }

    fn drop<T>(v: &mut Data<T, Self>) {
        v.raw.items.clear();
    }
}

impl InputState for Input {

}

impl State for Input {
    open spec fn owns_alloc() -> bool {
        true
    }

    fn drop<T>(v: &mut Data<T, Self>) {
        v.raw.items.clear();
    }
}

impl InputState for Split {

}

impl State for Split {
    open spec fn owns_alloc() -> bool {
        false
    }

    fn drop<T>(v: &mut Data<T, Self>) {
        v.raw.items.clear();
    }
}

struct RawData<T> {
    items: VecDeque<T>,
    pos: usize,
    cap: usize,
}

/// The mathematical value of a [`Data`].
pub ghost struct DataView<T> {
    /// The elements that the segment holds: those not read yet of an input,
    /// those written so far of an output.
    pub items: Seq<T>,
    /// The number of elements that were moved out.
    pub read: nat,
    /// The capacity of the allocation, in elements.
    pub cap: nat,
}

/// A buffer taken apart: its elements and its capacity. The type `S` says
/// what it is used for.
pub struct Data<T, S> {
    raw: RawData<T>,
    _state: S,
}

impl<T, S> View for Data<T, S> {
    type V = DataView<T>;

    closed spec fn view(&self) -> DataView<T> {
        DataView { items: self.raw.items@, read: self.raw.pos as nat, cap: self.raw.cap as nat }
    }
}

impl<T, S: State> Data<T, S> {
    /// The elements that were moved out and those that are held fit into the
    /// allocation.
    pub open spec fn wf(&self) -> bool {
        self@.read + self@.items.len() <= self@.cap
    }

    /// The segment as the engines see it, without its elements.
    pub open spec fn segment(&self) -> Segment {
        Segment {
            layout: Layout::of::<T>(),
            read: self@.read,
            unread: self@.items.len(),
            cap: self@.cap,
            alloc: if S::owns_alloc() {
                Alloc::Owned
            } else {
                Alloc::Surrendered
            },
        }
    }

    /// The number of elements that the segment holds.
    pub fn len(&self) -> (len: usize)
        ensures
            len == self@.items.len(),
    {
        self.raw.items.len()
    }

    /// Whether the segment holds no element.
    pub fn is_empty(&self) -> (empty: bool)
        ensures
            empty == (self@.items.len() == 0),
    {
        self.raw.items.len() == 0
    }
}

impl<T> Data<T, Output> {
    /// An empty output segment over a new allocation with room for `cap`
    /// elements.
    pub(crate) fn with_room(cap: usize) -> (output: Self)
        ensures
            output@ == (DataView { items: Seq::<T>::empty(), read: 0, cap: cap as nat }),
    {
        Data { raw: RawData { items: VecDeque::new(), pos: 0, cap }, _state: Output }
    }

    /// Writes `value` behind the elements written so far.
    pub fn write(&mut self, value: T)
        requires
            old(self)@.items.len() < old(self)@.cap,
        ensures
            final(self)@ == (DataView { items: old(self)@.items.push(value), ..old(self)@ }),
    {
        self.raw.items.push_back(value);
    }

    /// Hands the elements written so far out as a buffer.
    pub fn into_vec(self) -> (vec: Vec<T>)
        ensures
            vec@ == self@.items,
    {
        from_queue(self.raw.items)
    }
}

impl<T> Data<T, Init> {
    /// Takes a buffer apart.
    pub fn from(v: Vec<T>) -> (data: Self)
        ensures
            data.wf(),
            data@.items == v@,
            data@.read == 0,
    {
        let cap = capacity_of(&v);
        Data { raw: RawData { items: into_queue(v), pos: 0, cap }, _state: Init }
    }

    fn into_raw(self) -> (raw: RawData<T>)
        ensures
            raw.items@ == self@.items,
            raw.pos == self@.read,
            raw.cap == self@.cap,
    {
        self.raw
    }

    /// Drops the elements and starts writing the buffer from its beginning.
    pub fn into_output(self) -> (output: Data<T, Output>)
        ensures
            output@ == (DataView { items: Seq::<T>::empty(), ..self@ }),
    {
        let mut raw = self.into_raw();
        raw.items.clear();
        Data { raw, _state: Output }
    }
}

impl<T> IntoVecIter for Data<T, Init> {
    type Item = T;

    type Error = Infallible;

    type SplitIter = Data<T, Split>;

    type Iter = Data<T, Input>;

    open spec fn wf(&self) -> bool {
        self@.read + self@.items.len() <= self@.cap
    }

    open spec fn segments(&self) -> Seq<Segment> {
        seq![self.segment()]
    }

    open spec fn spec_len(&self) -> nat {
        self@.items.len()
    }

    open spec fn yields_at(&self, i: int, x: T) -> bool {
        0 <= i < self@.items.len() && self@.items[i] == x
    }

    open spec fn fails_at(&self, i: int, e: Infallible) -> bool {
        false
    }

    open spec fn admits(&self) -> bool {
        true
    }

    proof fn lemma_segments(&self) {
    }

    fn len(&self) -> (len: usize) {
        self.raw.items.len()
    }

    fn get_cap_for<W>(&self) -> (cap: Option<usize>) {
        if same_layout::<T, W>() {
            proof {
                let segs = self.segments();
                assert(is_pick(segs, Layout::of::<W>(), 0));
                lemma_pick_unique(segs, Layout::of::<W>(), 0, pick(segs, Layout::of::<W>()));
            }
            Some(self.raw.cap)
        } else {
            None
        }
    }

    fn split_vec_iter<W>(self) -> (split: (Data<T, Split>, Data<W, Output>)) {
        proof {
            let segs = self.segments();
            assert(is_pick(segs, Layout::of::<W>(), 0));
            lemma_pick_unique(segs, Layout::of::<W>(), 0, pick(segs, Layout::of::<W>()));
        }
        let raw = self.into_raw();
        let cap = raw.cap;
        (Data { raw, _state: Split }, Data::with_room(cap))
    }

    fn into_vec_iter(self) -> (iter: Data<T, Input>) {
        Data { raw: self.into_raw(), _state: Input }
    }
}

impl<T, S: InputState> VecIter for Data<T, S> {
    type Item = T;

    type Error = Infallible;

    open spec fn wf(&self) -> bool {
        self@.read + self@.items.len() <= self@.cap
    }

    open spec fn segments(&self) -> Seq<Segment> {
        seq![self.segment()]
    }

    open spec fn spec_len(&self) -> nat {
        self@.items.len()
    }

    open spec fn yields_at(&self, i: int, x: T) -> bool {
        0 <= i < self@.items.len() && self@.items[i] == x
    }

    open spec fn fails_at(&self, i: int, e: Infallible) -> bool {
        false
    }

    open spec fn admits(&self) -> bool {
        true
    }

    fn remaining(&self) -> (len: usize) {
        self.raw.items.len()
    }

    fn next_unchecked(&mut self) -> (result: Result<T, Infallible>) {
        let value = self.raw.items.pop_front();
        self.raw.pos = self.raw.pos + 1;
        Ok(value.unwrap())
    }
}

} // verus!
