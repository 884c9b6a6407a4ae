//! Transformations that are described first and run later: a chain is built
//! from data segments with `map`, `try_map` and `zip`, and a writer runs it
//! into a buffer, which stands for the allocation of one of the inputs where
//! the layouts allow it.

use vstd::prelude::*;
use core::convert::Infallible;
use std::collections::VecDeque;
use crate::layout::{same_layout, Layout};
use crate::try_trait::{never, Try};
use crate::vec::general_zip::{
    advance, all_owned, all_wf, is_pick, lemma_pick_concat, lemma_pick_unique, pick, some_matches,
};
use crate::vec::{capacity_of, from_queue, into_queue, Alloc, Segment};

verus! {

/// What a data segment is at the moment: a whole buffer, an input that is
/// being read, or an output that is being written.
pub trait State: Copy {
    /// Whether a segment in this state has to free its allocation.
    spec fn owns_alloc(self) -> bool;

    /// Releases what a segment in this state holds: its elements and, if the
    /// allocation is its own, the allocation.
    fn drop_data<T>(v: &mut VecData<T, Self>)
        ensures
            final(v)@ == (VecDataView { items: Seq::<T>::empty(), ..old(v)@ }),
    ;
}

/// A whole buffer, neither read from nor written to.
#[derive(Debug, Clone, Copy, PartialEq, Eq)]
pub struct Init;

/// A buffer that is being read.
#[derive(Debug, Clone, Copy, PartialEq, Eq)]
pub struct Input {
    // whether the allocation has been handed to an output
    has_output: bool,
}

/// A buffer that is being written.
#[derive(Debug, Clone, Copy, PartialEq, Eq)]
pub struct Output;

impl Input {
    /// Whether the allocation has been handed to an output.
    pub closed spec fn has_output(self) -> bool {
        self.has_output
    }
}

impl State for Init {
    open spec fn owns_alloc(self) -> bool {
        true
    }

    fn drop_data<T>(v: &mut VecData<T, Self>) {
        v.items.clear();
    }
}

impl State for Input {
    open spec fn owns_alloc(self) -> bool {
        !self.has_output()
    }

    fn drop_data<T>(v: &mut VecData<T, Self>) {
        v.items.clear();
    }
}

impl State for Output {
    open spec fn owns_alloc(self) -> bool {
        true
    }

    fn drop_data<T>(v: &mut VecData<T, Self>) {
        v.items.clear();
    }
}

/// The mathematical value of a [`VecData`].
pub ghost struct VecDataView<T, S> {
    /// The elements that the segment holds: those not read yet of an input,
    /// those written so far of an output.
    pub items: Seq<T>,
    /// The number of elements that were moved out.
    pub read: nat,
    /// The capacity of the allocation, in elements.
    pub cap: nat,
    /// What the segment is at the moment.
    pub state: S,
}

/// A buffer taken apart: its elements, its capacity and what it is used for.
pub struct VecData<T, S> {
    items: VecDeque<T>,
    pos: usize,
    cap: usize,
    state: S,
}

impl<T, S> View for VecData<T, S> {
    type V = VecDataView<T, S>;

    closed spec fn view(&self) -> VecDataView<T, S> {
        VecDataView {
            items: self.items@,
            read: self.pos as nat,
            cap: self.cap as nat,
            state: self.state,
        }
    }
}

impl<T, S: State> VecData<T, S> {
    /// The elements that were moved out and those that are held fit into the
    /// allocation.
    pub open spec fn wf(&self) -> bool {
        self@.read + self@.items.len() <= self@.cap
    }

    /// Whether the segment holds no element.
    #[inline]
    pub fn is_empty(&self) -> (empty: bool)
        ensures
            empty == (self@.items.len() == 0),
    {
        self.items.len() == 0
    }

    /// The number of elements that the segment holds.
    #[inline]
    pub fn len(&self) -> (len: usize)
        ensures
            len == self@.items.len(),
    {
        self.items.len()
    }

    /// The capacity of the allocation, in elements.
    #[inline]
    pub fn capacity(&self) -> (cap: usize)
        ensures
            cap == self@.cap,
    {
        self.cap
    }

    /// What the segment is at the moment.
    #[inline]
    pub fn state(&self) -> (state: S)
        ensures
            state == self@.state,
    {
        self.state
    }
}

impl<T> VecData<T, Input> {
    /// Takes a buffer apart for reading.
    pub fn from(v: Vec<T>) -> (data: Self)
        ensures
            data.wf(),
            data@.items == v@,
            data@.read == 0,
            !data@.state.has_output(),
    {
        let cap = capacity_of(&v);
        VecData { items: into_queue(v), pos: 0, cap, state: Input { has_output: false } }
    }

    /// The segment as the engines see it, without its elements.
    pub open spec fn segment(&self) -> Segment {
        Segment {
            layout: Layout::of::<T>(),
            read: self@.read,
            unread: self@.items.len(),
            cap: self@.cap,
            alloc: if self@.state.has_output() {
                Alloc::Surrendered
            } else {
                Alloc::Owned
            },
        }
    }

    /// Moves the first element out.
    #[inline]
    pub fn next_unchecked(&mut self) -> (value: T)
        requires
            old(self).wf(),
            old(self)@.items.len() > 0,
        ensures
            final(self).wf(),
            value == old(self)@.items[0],
            final(self)@ == (VecDataView {
                items: old(self)@.items.drop_first(),
                read: old(self)@.read + 1,
                ..old(self)@
            }),
    {
        let value = self.items.pop_front();
        self.pos = self.pos + 1;
        value.unwrap()
    }

    /// Hands the allocation to a new output segment, which is empty and has
    /// the capacity of this one.
    pub fn make_output<U>(&mut self) -> (output: VecData<U, Output>)
        requires
            !old(self)@.state.has_output(),
        ensures
            final(self)@.state.has_output(),
            final(self)@.items == old(self)@.items,
            final(self)@.read == old(self)@.read,
            final(self)@.cap == old(self)@.cap,
            output@.items == Seq::<U>::empty(),
            output@.read == 0,
            output@.cap == old(self)@.cap,
    {
        self.state.has_output = true;
        VecData { items: VecDeque::new(), pos: 0, cap: self.cap, state: Output }
    }
}

impl<T> VecData<T, Init> {
    /// Takes a buffer apart.
    pub fn from(v: Vec<T>) -> (data: Self)
        ensures
            data.wf(),
            data@.items == v@,
            data@.read == 0,
    {
        let cap = capacity_of(&v);
        VecData { items: into_queue(v), pos: 0, cap, state: Init }
    }

    /// Puts the buffer together again.
    #[inline]
    pub fn into_vec(self) -> (vec: Vec<T>)
        ensures
            vec@ == self@.items,
    {
        from_queue(self.items)
    }

    /// Starts reading the buffer.
    #[inline]
    pub fn into_input(self) -> (input: VecData<T, Input>)
        ensures
            input@.items == self@.items,
            input@.read == self@.read,
            input@.cap == self@.cap,
            !input@.state.has_output(),
    {
        VecData {
            items: self.items,
            pos: self.pos,
            cap: self.cap,
            state: Input { has_output: false },
        }
    }

    /// Drops the elements and starts writing the buffer from its beginning.
    #[inline]
    pub fn into_output(self) -> (output: VecData<T, Output>)
        ensures
            output@.items == Seq::<T>::empty(),
            output@.read == self@.read,
            output@.cap == self@.cap,
    {
        let mut items = self.items;
        items.clear();
        VecData { items, pos: self.pos, cap: self.cap, state: Output }
    }
}

impl<T> VecData<T, Output> {
    /// Writes `value` behind the elements written so far.
    #[inline]
    pub fn write_unchecked(&mut self, value: T)
        requires
            old(self)@.items.len() < old(self)@.cap,
        ensures
            final(self)@ == (VecDataView { items: old(self)@.items.push(value), ..old(self)@ }),
    {
        self.items.push_back(value);
    }

    /// Hands the elements written so far out as a buffer.
    #[inline]
    pub fn into_vec(self) -> (vec: Vec<T>)
        ensures
            vec@ == self@.items,
    {
        from_queue(self.items)
    }
}

/// A source of items that are produced one at a time, each from one element
/// of every input behind it.
pub trait VecTransform: Sized {
    /// What is produced.
    type Item;

    /// What a failure carries.
    type Error;

    /// The inputs are consistent.
    spec fn wf(&self) -> bool;

    /// The data segments of the inputs, without their elements, from left to
    /// right.
    spec fn segments(&self) -> Seq<Segment>;

    /// The number of items that are left.
    spec fn spec_len(&self) -> nat;

    /// The `i`-th of the items that are left may be `x`.
    spec fn yields_at(&self, i: int, x: Self::Item) -> bool;

    /// Producing the `i`-th of the items that are left may fail with `e`.
    spec fn fails_at(&self, i: int, e: Self::Error) -> bool;

    /// Every function in the chain may be applied to whatever reaches it.
    spec fn admits(&self) -> bool;

    /// There is an input, every input is consistent, and every input has an
    /// element for each item that is left.
    proof fn lemma_segments(&self)
        requires
            self.wf(),
        ensures
            self.segments().len() > 0,
            all_wf(self.segments()),
            forall|i: int|
                0 <= i < self.segments().len() ==> self.spec_len() <= (
                #[trigger] self.segments()[i]).unread,
    ;

    /// Produces the next item: moves one element out of every input and
    /// applies the functions of the chain to it.
    fn next_unchecked(&mut self) -> (result: Result<Self::Item, Self::Error>)
        requires
            old(self).wf(),
            old(self).admits(),
            old(self).spec_len() > 0,
        ensures
            final(self).wf(),
            final(self).admits(),
            final(self).spec_len() == old(self).spec_len() - 1,
            final(self).segments() == advance(old(self).segments()),
            match result {
                Ok(x) => old(self).yields_at(0, x),
                Err(e) => old(self).fails_at(0, e),
            },
            forall|i: int, x: Self::Item| #[trigger]
                final(self).yields_at(i, x) ==> old(self).yields_at(i + 1, x),
            forall|i: int, e: Self::Error| #[trigger]
                final(self).fails_at(i, e) ==> old(self).fails_at(i + 1, e),
    ;

    /// Whether no item is left.
    fn is_empty(&self) -> (empty: bool)
        ensures
            empty == (self.spec_len() == 0),
    ;

    /// The number of items that are left.
    fn len(&self) -> (len: usize)
        ensures
            len == self.spec_len(),
    ;

    /// The largest capacity among the inputs whose allocation can hold items
    /// of type `U`, if there is any.
    fn is_compat<W>(&self) -> (cap: Option<usize>)
        ensures
            match cap {
                Some(c) => {
                    let k = pick(self.segments(), Layout::of::<W>());
                    &&& is_pick(self.segments(), Layout::of::<W>(), k)
                    &&& c == self.segments()[k].cap
                },
                None => forall|i: int|
                    0 <= i < self.segments().len() ==> (#[trigger] self.segments()[i]).layout
                        != Layout::of::<W>(),
            },
    ;

    /// Hands the allocation of an input to a new output segment: of the
    /// inputs whose allocation can hold items of type `W`, the one with the
    /// largest capacity, and of several such the leftmost.
    fn make_output<W>(&mut self) -> (output: VecData<W, Output>)
        requires
            old(self).wf(),
            all_owned(old(self).segments()),
            exists|i: int|
                0 <= i < old(self).segments().len() && (#[trigger] old(self).segments()[i]).layout
                    == Layout::of::<W>(),
        ensures
            final(self).wf(),
            old(self).admits() ==> final(self).admits(),
            final(self).spec_len() == old(self).spec_len(),
            ({
                let segs = old(self).segments();
                let k = pick(segs, Layout::of::<W>());
                &&& is_pick(segs, Layout::of::<W>(), k)
                &&& final(self).segments() == segs.update(k, segs[k].surrendered())
                &&& output@.cap == segs[k].cap
            }),
            output@.items == Seq::<W>::empty(),
            forall|i: int, x: Self::Item| #[trigger]
                final(self).yields_at(i, x) ==> old(self).yields_at(i, x),
            forall|i: int, e: Self::Error| #[trigger]
                final(self).fails_at(i, e) ==> old(self).fails_at(i, e),
    ;

    /// Applies `func` to every item.
    #[inline]
    fn map<G: FnMut(Self::Item) -> W, W>(self, func: G) -> (mapped: Mapped<Self, G>)
        ensures
            mapped.trans == self,
            mapped.func == func,
    {
        Mapped { trans: self, func }
    }

    /// Applies `func`, which may fail, to every item.
    #[inline]
    fn try_map<G: FnMut(Self::Item) -> Q, W, Q: Try<Ok = W>>(self, func: G) -> (mapped: TryMap<
        Self,
        G,
    >)
        ensures
            mapped.trans == self,
            mapped.func == func,
    {
        TryMap { trans: self, func }
    }

    /// Pairs every item up with the item of `other` at the same place.
    #[inline]
    fn zip<Z>(self, other: Z) -> (zipped: Zip<Self, Z>)
        ensures
            zipped.left == self,
            zipped.right == other,
    {
        Zip { left: self, right: other }
    }
}

/// The items of a transform with a function applied to each.
pub struct Mapped<T, F> {
    pub trans: T,
    pub func: F,
}

/// The items of a transform with a function applied to each that may fail.
pub struct TryMap<T, F> {
    pub trans: T,
    pub func: F,
}

/// The items of two transforms, paired up.
pub struct Zip<T, U> {
    pub left: T,
    pub right: U,
}

impl<T> VecTransform for VecData<T, Input> {
    type Item = T;

    type Error = Infallible;

    open spec fn wf(&self) -> bool {
        self@.read + self@.items.len() <= self@.cap
    }

    open spec fn segments(&self) -> Seq<Segment> {
        seq![self.segment()]
    }

    open spec fn spec_len(&self) -> nat {
        self@.items.len()
    }

    open spec fn yields_at(&self, i: int, x: T) -> bool {
        0 <= i < self@.items.len() && self@.items[i] == x
    }

    open spec fn fails_at(&self, i: int, e: Infallible) -> bool {
        false
    }

    open spec fn admits(&self) -> bool {
        true
    }

    proof fn lemma_segments(&self) {
    }

    #[inline]
    fn next_unchecked(&mut self) -> (result: Result<T, Infallible>) {
        let value = self.next_unchecked();
        proof {
            assert(self.segments() =~= advance(old(self).segments()));
        }
        Ok(value)
    }

    #[inline]
    fn is_empty(&self) -> (empty: bool) {
        self.is_empty()
    }

    fn len(&self) -> (len: usize) {
        self.len()
    }

    fn is_compat<W>(&self) -> (cap: Option<usize>) {
        if same_layout::<T, W>() {
            proof {
                let segs = self.segments();
                assert(is_pick(segs, Layout::of::<W>(), 0));
                lemma_pick_unique(segs, Layout::of::<W>(), 0, pick(segs, Layout::of::<W>()));
            }
            Some(self.capacity())
        } else {
            None
        }
    }

    fn make_output<W>(&mut self) -> (output: VecData<W, Output>) {
        proof {
            let segs = self.segments();
            assert(segs[0].alloc == Alloc::Owned);
            assert(is_pick(segs, Layout::of::<W>(), 0));
            lemma_pick_unique(segs, Layout::of::<W>(), 0, pick(segs, Layout::of::<W>()));
        }
        let output = self.make_output();
        proof {
            let segs = old(self).segments();
            assert(self.segments() =~= segs.update(0, segs[0].surrendered()));
        }
        output
    }
}

impl<T: VecTransform, F: FnMut(T::Item) -> U, U> VecTransform for Mapped<T, F> {
    type Item = U;

    type Error = T::Error;

    open spec fn wf(&self) -> bool {
        self.trans.wf()
    }

    open spec fn segments(&self) -> Seq<Segment> {
        self.trans.segments()
    }

    open spec fn spec_len(&self) -> nat {
        self.trans.spec_len()
    }

    open spec fn yields_at(&self, i: int, x: U) -> bool {
        exists|y: T::Item| #[trigger] self.trans.yields_at(i, y) && call_ensures(self.func, (y,), x)
    }

    open spec fn fails_at(&self, i: int, e: T::Error) -> bool {
        self.trans.fails_at(i, e)
    }

    open spec fn admits(&self) -> bool {
        &&& self.trans.admits()
        &&& forall|i: int, y: T::Item| #[trigger]
            self.trans.yields_at(i, y) ==> call_requires(self.func, (y,))
    }

    proof fn lemma_segments(&self) {
        self.trans.lemma_segments();
    }

    #[inline]
    fn next_unchecked(&mut self) -> (result: Result<U, T::Error>) {
        match self.trans.next_unchecked() {
            Ok(y) => {
                let x = (self.func)(y);
                proof {
                    assert(old(self).trans.yields_at(0, y));
                    assert forall|i: int, z: U| #[trigger] self.yields_at(i, z) implies old(
                        self,
                    ).yields_at(i + 1, z) by {
                        let w = choose|w: T::Item| #[trigger]
                            self.trans.yields_at(i, w) && call_ensures(self.func, (w,), z);
                        assert(old(self).trans.yields_at(i + 1, w));
                    }
                }
                Ok(x)
            },
            Err(e) => {
                proof {
                    assert forall|i: int, z: U| #[trigger] self.yields_at(i, z) implies old(
                        self,
                    ).yields_at(i + 1, z) by {
                        let w = choose|w: T::Item| #[trigger]
                            self.trans.yields_at(i, w) && call_ensures(self.func, (w,), z);
                        assert(old(self).trans.yields_at(i + 1, w));
                    }
                }
                Err(e)
            },
        }
    }

    #[inline]
    fn is_empty(&self) -> (empty: bool) {
        self.trans.is_empty()
    }

    fn len(&self) -> (len: usize) {
        self.trans.len()
    }

    fn is_compat<W>(&self) -> (cap: Option<usize>) {
        self.trans.is_compat::<W>()
    }

    fn make_output<W>(&mut self) -> (output: VecData<W, Output>) {
        let output = self.trans.make_output::<W>();
        proof {
            assert forall|i: int, z: U| #[trigger] self.yields_at(i, z) implies old(
                self,
            ).yields_at(i, z) by {
                let w = choose|w: T::Item| #[trigger]
                    self.trans.yields_at(i, w) && call_ensures(self.func, (w,), z);
                assert(old(self).trans.yields_at(i, w));
            }
        }
        output
    }
}

/// A value of which nothing can exist, because it could only be made from
/// an `Infallible`.
pub trait IntoInfallible: Sized {
    /// The `Infallible` that the value is made from.
    spec fn infallible(self) -> Infallible;

    /// Takes the `Infallible` out that the value is made from.
    fn into_infallible(self) -> (inner: Infallible)
        ensures
            inner == self.infallible(),
    ;
}

impl IntoInfallible for Infallible {
    open spec fn infallible(self) -> Infallible {
        self
    }

    #[inline]
    fn into_infallible(self) -> (inner: Infallible) {
        self
    }
}

/// The error of a [`TryMap`]: either that of the transform behind it or that
/// of its function.
pub enum Either<T, F> {
    Inner(T),
    Func(F),
}

impl<T: IntoInfallible, F: IntoInfallible> IntoInfallible for Either<T, F> {
    open spec fn infallible(self) -> Infallible {
        match self {
            Either::Inner(x) => x.infallible(),
            Either::Func(x) => x.infallible(),
        }
    }

    #[inline]
    fn into_infallible(self) -> (inner: Infallible) {
        match self {
            Either::Inner(x) => x.into_infallible(),
            Either::Func(x) => x.into_infallible(),
        }
    }
}

impl<T: IntoInfallible, F> Either<T, F> {
    /// The error of the function, when the transform behind it has none.
    #[inline]
    #[allow(unreachable_code)]
    pub fn into_func(self) -> (func: F)
        ensures
            self matches Either::Func(x) ==> func == x,
    {
        match self {
            Either::Inner(x) => never(x.into_infallible()),
            Either::Func(x) => x,
        }
    }
}

impl<T, F: IntoInfallible> Either<T, F> {
    /// The error of the transform behind, when the function has none.
    #[inline]
    #[allow(unreachable_code)]
    pub fn into_inner(self) -> (inner: T)
        ensures
            self matches Either::Inner(x) ==> inner == x,
    {
        match self {
            Either::Inner(x) => x,
            Either::Func(x) => never(x.into_infallible()),
        }
    }
}

impl<T: VecTransform, F: FnMut(T::Item) -> R, U, R: Try<Ok = U>> VecTransform for TryMap<T, F> {
    type Item = U;

    type Error = Either<T::Error, R::Error>;

    open spec fn wf(&self) -> bool {
        self.trans.wf()
    }

    open spec fn segments(&self) -> Seq<Segment> {
        self.trans.segments()
    }

    open spec fn spec_len(&self) -> nat {
        self.trans.spec_len()
    }

    open spec fn yields_at(&self, i: int, x: U) -> bool {
        exists|y: T::Item, r: R|
            #![trigger self.trans.yields_at(i, y), call_ensures(self.func, (y,), r)]
            self.trans.yields_at(i, y) && call_ensures(self.func, (y,), r) && r.result() == Ok::<
                U,
                R::Error,
            >(x)
    }

    open spec fn fails_at(&self, i: int, e: Either<T::Error, R::Error>) -> bool {
        match e {
            Either::Inner(inner) => self.trans.fails_at(i, inner),
            Either::Func(func) => exists|y: T::Item, r: R|
                #![trigger self.trans.yields_at(i, y), call_ensures(self.func, (y,), r)]
                self.trans.yields_at(i, y) && call_ensures(self.func, (y,), r) && r.result()
                    == Err::<U, R::Error>(func),
        }
    }

    open spec fn admits(&self) -> bool {
        &&& self.trans.admits()
        &&& forall|i: int, y: T::Item| #[trigger]
            self.trans.yields_at(i, y) ==> call_requires(self.func, (y,))
    }

    proof fn lemma_segments(&self) {
        self.trans.lemma_segments();
    }

    #[inline]
    fn next_unchecked(&mut self) -> (result: Result<U, Either<T::Error, R::Error>>) {
        let ghost before = *self;
        let output = self.trans.next_unchecked();
        proof {
            assert forall|i: int, z: U| #[trigger] self.yields_at(i, z) implies before.yields_at(
                i + 1,
                z,
            ) by {
                let (w, r) = choose|w: T::Item, r: R|
                    #![trigger self.trans.yields_at(i, w), call_ensures(self.func, (w,), r)]
                    self.trans.yields_at(i, w) && call_ensures(self.func, (w,), r) && r.result()
                        == Ok::<U, R::Error>(z);
                assert(before.trans.yields_at(i + 1, w));
            }
            assert forall|i: int, e: Either<T::Error, R::Error>| #[trigger]
                self.fails_at(i, e) implies before.fails_at(i + 1, e) by {
                match e {
                    Either::Inner(inner) => {},
                    Either::Func(func) => {
                        let (w, r) = choose|w: T::Item, r: R|
                            #![trigger self.trans.yields_at(i, w), call_ensures(self.func, (w,), r)]
                            self.trans.yields_at(i, w) && call_ensures(self.func, (w,), r)
                                && r.result() == Err::<U, R::Error>(func);
                        assert(before.trans.yields_at(i + 1, w));
                    },
                }
            }
        }
        match output {
            Ok(y) => {
                let r = (self.func)(y);
                match r.into_result() {
                    Ok(value) => Ok(value),
                    Err(err) => Err(Either::Func(err)),
                }
            },
            Err(err) => Err(Either::Inner(err)),
        }
    }

    #[inline]
    fn is_empty(&self) -> (empty: bool) {
        self.trans.is_empty()
    }

    fn len(&self) -> (len: usize) {
        self.trans.len()
    }

    fn is_compat<W>(&self) -> (cap: Option<usize>) {
        self.trans.is_compat::<W>()
    }

    fn make_output<W>(&mut self) -> (output: VecData<W, Output>) {
        let ghost before = *self;
        let output = self.trans.make_output::<W>();
        proof {
            assert forall|i: int, z: U| #[trigger] self.yields_at(i, z) implies before.yields_at(
                i,
                z,
            ) by {
                let (w, r) = choose|w: T::Item, r: R|
                    #![trigger self.trans.yields_at(i, w), call_ensures(self.func, (w,), r)]
                    self.trans.yields_at(i, w) && call_ensures(self.func, (w,), r) && r.result()
                        == Ok::<U, R::Error>(z);
                assert(before.trans.yields_at(i, w));
            }
            assert forall|i: int, e: Either<T::Error, R::Error>| #[trigger]
                self.fails_at(i, e) implies before.fails_at(i, e) by {
                match e {
                    Either::Inner(inner) => {},
                    Either::Func(func) => {
                        let (w, r) = choose|w: T::Item, r: R|
                            #![trigger self.trans.yields_at(i, w), call_ensures(self.func, (w,), r)]
                            self.trans.yields_at(i, w) && call_ensures(self.func, (w,), r)
                                && r.result() == Err::<U, R::Error>(func);
                        assert(before.trans.yields_at(i, w));
                    },
                }
            }
        }
        output
    }
}

/// The error of a [`Zip`]: that of the left transform, that of the right
/// one, or both.
pub enum ZipError<T, U> {
    Both(T, U),
    Left(T),
    Right(U),
}

impl<T: IntoInfallible, F: IntoInfallible> IntoInfallible for ZipError<T, F> {
    open spec fn infallible(self) -> Infallible {
        match self {
            ZipError::Both(x, _) => x.infallible(),
            ZipError::Left(x) => x.infallible(),
            ZipError::Right(x) => x.infallible(),
        }
    }

    #[inline]
    fn into_infallible(self) -> (inner: Infallible) {
        match self {
            ZipError::Both(x, _) => x.into_infallible(),
            ZipError::Left(x) => x.into_infallible(),
            ZipError::Right(x) => x.into_infallible(),
        }
    }
}

impl<F> ZipError<Infallible, F> {
    /// The error of the right transform, when the left one has none.
    #[inline]
    pub fn into_right(self) -> (right: F)
        ensures
            self matches ZipError::Right(x) ==> right == x,
    {
        match self {
            ZipError::Both(x, _) => never(x),
            ZipError::Left(x) => never(x),
            ZipError::Right(x) => x,
        }
    }
}

impl<T> ZipError<T, Infallible> {
    /// The error of the left transform, when the right one has none.
    #[inline]
    pub fn into_left(self) -> (left: T)
        ensures
            self matches ZipError::Left(x) ==> left == x,
    {
        match self {
            ZipError::Both(_, x) => never(x),
            ZipError::Right(x) => never(x),
            ZipError::Left(x) => x,
        }
    }
}

impl<T: VecTransform, U: VecTransform> VecTransform for Zip<T, U> {
    type Item = (T::Item, U::Item);

    type Error = ZipError<T::Error, U::Error>;

    open spec fn wf(&self) -> bool {
        self.left.wf() && self.right.wf()
    }

    open spec fn segments(&self) -> Seq<Segment> {
        self.left.segments() + self.right.segments()
    }

    open spec fn spec_len(&self) -> nat {
        if self.left.spec_len() <= self.right.spec_len() {
            self.left.spec_len()
        } else {
            self.right.spec_len()
        }
    }

    open spec fn yields_at(&self, i: int, x: (T::Item, U::Item)) -> bool {
        self.left.yields_at(i, x.0) && self.right.yields_at(i, x.1)
    }

    open spec fn fails_at(&self, i: int, e: ZipError<T::Error, U::Error>) -> bool {
        match e {
            ZipError::Both(left, right) => self.left.fails_at(i, left) && self.right.fails_at(
                i,
                right,
            ),
            ZipError::Left(left) => self.left.fails_at(i, left) && exists|y: U::Item|
                self.right.yields_at(i, y),
            ZipError::Right(right) => self.right.fails_at(i, right) && exists|x: T::Item|
                self.left.yields_at(i, x),
        }
    }

    open spec fn admits(&self) -> bool {
        self.left.admits() && self.right.admits()
    }

    proof fn lemma_segments(&self) {
        self.left.lemma_segments();
        self.right.lemma_segments();
        let segs = self.segments();
        let a = self.left.segments();
        let b = self.right.segments();
        assert forall|i: int| 0 <= i < segs.len() implies (#[trigger] segs[i]).wf()
            && self.spec_len() <= segs[i].unread by {
            if i < a.len() {
                assert(segs[i] == a[i]);
            } else {
                assert(segs[i] == b[i - a.len()]);
            }
        }
    }

    #[inline]
    fn next_unchecked(&mut self) -> (result: Result<
        (T::Item, U::Item),
        ZipError<T::Error, U::Error>,
    >) {
        let ghost before = *self;
        let left = self.left.next_unchecked();
        let right = self.right.next_unchecked();
        proof {
            assert(self.segments() =~= advance(before.segments()));
            assert forall|i: int, e: ZipError<T::Error, U::Error>| #[trigger]
                self.fails_at(i, e) implies before.fails_at(i + 1, e) by {
                match e {
                    ZipError::Both(l, r) => {},
                    ZipError::Left(l) => {
                        let y = choose|y: U::Item| self.right.yields_at(i, y);
                        assert(before.right.yields_at(i + 1, y));
                    },
                    ZipError::Right(r) => {
                        let x = choose|x: T::Item| self.left.yields_at(i, x);
                        assert(before.left.yields_at(i + 1, x));
                    },
                }
            }
        }
        match (left, right) {
            (Ok(left), Ok(right)) => Ok((left, right)),
            (Ok(_), Err(right)) => Err(ZipError::Right(right)),
            (Err(left), Ok(_)) => Err(ZipError::Left(left)),
            (Err(left), Err(right)) => Err(ZipError::Both(left, right)),
        }
    }

    #[inline]
    fn is_empty(&self) -> (empty: bool) {
        self.left.is_empty() || self.right.is_empty()
    }

    fn len(&self) -> (len: usize) {
        let left = self.left.len();
        let right = self.right.len();
        if left <= right {
            left
        } else {
            right
        }
    }

    fn is_compat<W>(&self) -> (cap: Option<usize>) {
        let left = self.left.is_compat::<W>();
        let right = self.right.is_compat::<W>();
        proof {
            let a = self.left.segments();
            let b = self.right.segments();
            let all = self.segments();
            let target = Layout::of::<W>();
            lemma_pick_concat(a, b, target, pick(a, target), pick(b, target));
            if left is Some && right is Some {
                let k = if a[pick(a, target)].cap >= b[pick(b, target)].cap {
                    pick(a, target)
                } else {
                    a.len() + pick(b, target)
                };
                lemma_pick_unique(all, target, k, pick(all, target));
            } else if left is Some {
                lemma_pick_unique(all, target, pick(a, target), pick(all, target));
            } else if right is Some {
                lemma_pick_unique(all, target, a.len() + pick(b, target), pick(all, target));
            } else {
                assert forall|i: int| 0 <= i < all.len() implies (#[trigger] all[i]).layout
                    != target by {
                    if i < a.len() {
                        assert(all[i] == a[i]);
                    } else {
                        assert(all[i] == b[i - a.len()]);
                    }
                }
            }
        }
        match (left, right) {
            (Some(a), Some(b)) => Some(
                if a >= b {
                    a
                } else {
                    b
                },
            ),
            (Some(a), None) => Some(a),
            (None, b) => b,
        }
    }

    fn make_output<W>(&mut self) -> (output: VecData<W, Output>) {
        let ghost before = *self;
        let ghost a = self.left.segments();
        let ghost b = self.right.segments();
        let ghost all = self.segments();
        let ghost target = Layout::of::<W>();
        let left = self.left.is_compat::<W>();
        let right = self.right.is_compat::<W>();
        proof {
            lemma_pick_concat(a, b, target, pick(a, target), pick(b, target));
            assert forall|i: int| 0 <= i < a.len() implies (#[trigger] a[i]).alloc
                == Alloc::Owned by {
                assert(all[i] == a[i]);
            }
            assert forall|i: int| 0 <= i < b.len() implies (#[trigger] b[i]).alloc
                == Alloc::Owned by {
                assert(all[a.len() + i] == b[i]);
            }
            if left is None && right is None {
                let i = choose|i: int| 0 <= i < all.len() && (#[trigger] all[i]).layout == target;
                if i < a.len() {
                    assert(all[i] == a[i]);
                } else {
                    assert(all[i] == b[i - a.len()]);
                }
            }
        }
        let take_left = match (left, right) {
            (Some(a), Some(b)) => a >= b,
            (Some(_), None) => true,
            (None, _) => false,
        };
        if take_left {
            proof {
                lemma_pick_unique(all, target, pick(a, target), pick(all, target));
            }
            let output = self.left.make_output::<W>();
            proof {
                let k = pick(a, target);
                assert(self.segments() =~= all.update(k, all[k].surrendered()));
                assert forall|i: int, e: ZipError<T::Error, U::Error>| #[trigger]
                    self.fails_at(i, e) implies before.fails_at(i, e) by {
                    match e {
                        ZipError::Both(l, r) => {},
                        ZipError::Left(l) => {},
                        ZipError::Right(r) => {
                            let x = choose|x: T::Item| self.left.yields_at(i, x);
                            assert(before.left.yields_at(i, x));
                        },
                    }
                }
            }
            output
        } else {
            proof {
                lemma_pick_unique(all, target, a.len() + pick(b, target), pick(all, target));
            }
            let output = self.right.make_output::<W>();
            proof {
                let k = a.len() + pick(b, target);
                assert(all[k] == b[pick(b, target)]);
                assert(self.segments() =~= all.update(k, all[k].surrendered()));
                assert forall|i: int, e: ZipError<T::Error, U::Error>| #[trigger]
                    self.fails_at(i, e) implies before.fails_at(i, e) by {
                    match e {
                        ZipError::Both(l, r) => {},
                        ZipError::Left(l) => {
                            let y = choose|y: U::Item| self.right.yields_at(i, y);
                            assert(before.right.yields_at(i, y));
                        },
                        ZipError::Right(r) => {},
                    }
                }
            }
            output
        }
    }
}

/// A chain of transforms together with the buffer that its items are written
/// to.
pub struct Writer<V: VecTransform> {
    output: VecData<V::Item, Output>,
    trans: V,
}

impl<V: VecTransform> Writer<V> {
    /// The chain that is run.
    pub closed spec fn trans(&self) -> V {
        self.trans
    }

    /// The buffer that the items are written to.
    pub closed spec fn output(&self) -> VecDataView<V::Item, Output> {
        self.output@
    }

    /// Nothing has been written, and the buffer has room for every item of
    /// the chain.
    pub open spec fn ready(&self) -> bool {
        &&& self.trans().wf()
        &&& self.trans().admits()
        &&& self.output().items.len() == 0
        &&& self.trans().spec_len() <= self.output().cap
    }

    /// The chain of the writer is `trans` with at most the allocation of one
    /// input handed to the buffer: it has as many items, and what it yields
    /// or fails with, `trans` does too.
    pub open spec fn follows(&self, trans: V) -> bool {
        &&& self.trans().spec_len() == trans.spec_len()
        &&& forall|i: int, x: V::Item| #[trigger]
            self.trans().yields_at(i, x) ==> trans.yields_at(i, x)
        &&& forall|i: int, e: V::Error| #[trigger]
            self.trans().fails_at(i, e) ==> trans.fails_at(i, e)
    }

    /// The buffer is the one that the inputs of `trans` give for items of
    /// the chain. If some input has elements of the layout of the items, the
    /// buffer stands for the allocation of the pick among them, which that
    /// input has given up and no other; if none has, every input keeps its
    /// allocation and the buffer is a new one with room for every item.
    pub open spec fn stands_on(&self, trans: V) -> bool {
        let segs = trans.segments();
        let target = Layout::of::<V::Item>();
        if some_matches(segs, target) {
            let k = pick(segs, target);
            &&& is_pick(segs, target, k)
            &&& self.trans().segments() == segs.update(k, segs[k].surrendered())
            &&& self.output().cap == segs[k].cap
        } else {
            &&& self.trans().segments() == segs
            &&& self.output().cap == trans.spec_len()
        }
    }

    /// `out` holds one item for each place of the chain, in order.
    pub open spec fn written(trans: V, out: Seq<V::Item>) -> bool {
        &&& out.len() == trans.spec_len()
        &&& forall|i: int| 0 <= i < out.len() ==> trans.yields_at(i, #[trigger] out[i])
    }

    /// The chain may yield an item at the place `i`.
    pub open spec fn yields_some(trans: V, i: int) -> bool {
        exists|x: V::Item| trans.yields_at(i, x)
    }

    /// The chain failed at the place `k` with the error `e`, after yielding
    /// an item at every place before it.
    pub open spec fn stopped_at(trans: V, k: int, e: V::Error) -> bool {
        &&& 0 <= k < trans.spec_len()
        &&& trans.fails_at(k, e)
        &&& forall|i: int| 0 <= i < k ==> #[trigger] Self::yields_some(trans, i)
    }

    /// The chain failed at some place with the error `e`, after yielding an
    /// item at every place before it.
    pub open spec fn stopped(trans: V, e: V::Error) -> bool {
        exists|k: int| Self::stopped_at(trans, k, e)
    }

    /// Gives the chain the buffer that it is run into: the allocation of one
    /// of its inputs if the items fit into it, and a new one otherwise.
    #[inline]
    pub fn new(trans: V) -> (writer: Self)
        requires
            trans.wf(),
            trans.admits(),
            all_owned(trans.segments()),
        ensures
            writer.ready(),
            writer.follows(trans),
            writer.stands_on(trans),
    {
        let mut trans = trans;
        let output = if trans.is_compat::<V::Item>().is_some() {
            let ghost segs = trans.segments();
            let ghost k = pick(segs, Layout::of::<V::Item>());
            proof {
                trans.lemma_segments();
                assert(segs[k].wf());
            }
            trans.make_output()
        } else {
            let cap = trans.len();
            VecData { items: VecDeque::new(), pos: 0, cap, state: Output }
        };
        Writer { output, trans }
    }

    /// Runs the chain into the buffer and hands the buffer out. The first
    /// failure ends the work: its error is returned, and what was written
    /// and what is left of the inputs is dropped.
    #[inline]
    pub fn try_into_vec(self) -> (result: Result<Vec<V::Item>, V::Error>)
        requires
            self.ready(),
        ensures
            match result {
                Ok(out) => Self::written(self.trans(), out@),
                Err(e) => Self::stopped(self.trans(), e),
            },
    {
        let ghost start = self.trans;
        let ghost total = self.trans.spec_len();
        let mut writer = self;
        while !writer.trans.is_empty()
            invariant
                start == self.trans(),
                total == start.spec_len(),
                writer.trans.wf(),
                writer.trans.admits(),
                writer.output@.items.len() + writer.trans.spec_len() == total,
                total <= writer.output@.cap,
                forall|i: int, x: V::Item| #[trigger]
                    writer.trans.yields_at(i, x) ==> start.yields_at(
                        i + writer.output@.items.len(),
                        x,
                    ),
                forall|i: int, e: V::Error| #[trigger]
                    writer.trans.fails_at(i, e) ==> start.fails_at(
                        i + writer.output@.items.len(),
                        e,
                    ),
                forall|i: int|
                    0 <= i < writer.output@.items.len() ==> start.yields_at(
                        i,
                        #[trigger] writer.output@.items[i],
                    ),
            decreases writer.trans.spec_len(),
        {
            let ghost k = writer.output@.items.len() as int;
            let ghost written = writer.output@.items;
            let ghost current = writer.trans;
            let item = writer.trans.next_unchecked();
            match item {
                Ok(value) => {
                    writer.output.write_unchecked(value);
                    proof {
                        assert(current.yields_at(0, value));
                        assert forall|i: int| 0 <= i < k + 1 implies start.yields_at(
                            i,
                            #[trigger] writer.output@.items[i],
                        ) by {
                            if i < k {
                                assert(writer.output@.items[i] == written[i]);
                            }
                        }
                        assert forall|i: int, x: V::Item| #[trigger]
                            writer.trans.yields_at(i, x) implies start.yields_at(i + k + 1, x) by {
                            assert(current.yields_at(i + 1, x));
                        }
                        assert forall|i: int, e: V::Error| #[trigger]
                            writer.trans.fails_at(i, e) implies start.fails_at(i + k + 1, e) by {
                            assert(current.fails_at(i + 1, e));
                        }
                    }
                },
                Err(e) => {
                    proof {
                        assert(current.fails_at(0, e));
                        assert forall|i: int| 0 <= i < k implies #[trigger] Self::yields_some(
                            start,
                            i,
                        ) by {
                            assert(start.yields_at(i, written[i]));
                        }
                        assert(Self::stopped_at(start, k, e));
                    }
                    return Err(e);
                },
            }
        }
        Ok(writer.output.into_vec())
    }
}

/// Prepares the chain to be run into a buffer.
#[inline]
pub fn into_writer<V: VecTransform>(trans: V) -> (writer: Writer<V>)
    requires
        trans.wf(),
        trans.admits(),
        all_owned(trans.segments()),
    ensures
        writer.ready(),
        writer.follows(trans),
        writer.stands_on(trans),
{
    Writer::new(trans)
}

impl<V: VecTransform> Writer<V> where V::Error: IntoInfallible {
    /// Runs a chain that cannot fail into the buffer and hands the buffer
    /// out.
    #[inline]
    #[allow(unreachable_code)]
    pub fn into_vec(self) -> (out: Vec<V::Item>)
        requires
            self.ready(),
        ensures
            (forall|k: int, e: V::Error| !#[trigger] self.trans().fails_at(k, e)) ==> Self::written(
                self.trans(),
                out@,
            ),
    {
        match self.try_into_vec() {
            Ok(x) => x,
            Err(x) => never(x.into_infallible()),
        }
    }
}

} // verus!
