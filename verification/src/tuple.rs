//! Zipping any number of buffers, with the allocation for the output chosen
//! in two steps: every input that qualifies offers an output segment, and
//! only the one whose offer is taken gives its allocation up.

use vstd::prelude::*;
use core::convert::Infallible;
use crate::layout::{same_layout, Layout};
use crate::transform::{
    accepts_all, lemma_try_each, mapped, stopped, stopped_at, succeeds, try_mapped, try_stopped,
    Transform, TryEach,
};
use crate::try_trait::{never, Try};
use crate::vec::general_zip::{
    advance, all_owned, all_wf, any_matches, collect_rows, depth_fits, drop_tails, is_min_of,
    is_pick, lemma_pick_cons, lemma_pick_surrendered, lemma_pick_unique, pick, some_matches,
    zip_rows, zip_vecs,
};
use crate::vec::{Alloc, Input, Output, OutputView, Segment};

verus! {

/// The success value of a result that cannot be a failure.
#[allow(unreachable_code)]
pub fn unwrap<T: Try>(t: T) -> (value: T::Ok) where T::Error: Into<Infallible>
    ensures
        t.result() is Ok ==> t.result() == Ok::<T::Ok, T::Error>(value),
{
    match t.into_result() {
        Ok(x) => x,
        Err(x) => never(x.into()),
    }
}

/// The output segment that an input offers, with the place of the input.
pub struct OutputData<T> {
    output: Output<T>,
    // the number of inputs before the one that made the offer
    index: u64,
}

impl<T> OutputData<T> {
    /// The output segment that is offered.
    pub closed spec fn output(&self) -> OutputView<T> {
        self.output@
    }

    /// The number of inputs before the one that made the offer.
    pub closed spec fn index(&self) -> int {
        self.index as int
    }
}

/// One input of a zip: a collection whose elements can be moved out one by
/// one and whose allocation an output may take over.
#[allow(clippy::len_without_is_empty)]
pub trait TupleElem: Sized {
    /// The items yielded from this element.
    type Item;

    /// The data segment that an `Output<V>` is derived from and that yields
    /// the `Item`s.
    type Data;

    /// The layout of the items.
    spec fn layout() -> Layout;

    /// The items of the collection, in order.
    spec fn items(&self) -> Seq<Self::Item>;

    /// The data segment without its items.
    spec fn segment(data: &Self::Data) -> Segment;

    /// The items of the data segment that have not been read, in order.
    spec fn unread(data: &Self::Data) -> Seq<Self::Item>;

    /// The segment counts the unread items and has the layout of the items.
    proof fn lemma_segment(data: &Self::Data)
        ensures
            Self::segment(data).unread == Self::unread(data).len(),
            Self::segment(data).layout == Self::layout(),
    ;

    /// The capacity of the data segment.
    fn capacity(data: &Self::Data) -> (cap: usize)
        ensures
            cap == Self::segment(data).cap,
    ;

    /// The number of items in the collection.
    fn len(&self) -> (len: usize)
        ensures
            len == self.items().len(),
    ;

    /// Converts into a data segment that owns the items and the allocation.
    fn into_data(self) -> (data: Self::Data)
        ensures
            Self::unread(&data) == self.items(),
            Self::segment(&data).wf(),
            Self::segment(&data).read == 0,
            Self::segment(&data).alloc == Alloc::Owned,
    ;

    /// Whether the allocation can hold items of type `V`, so that `try_pick`
    /// makes an offer.
    fn check_pick<V>(&self) -> (matches: bool)
        ensures
            matches == (Self::layout() == Layout::of::<V>()),
    ;

    /// Offers an output segment over the allocation if it can hold items of
    /// type `V`. The offer commits to nothing: the allocation stays with
    /// the data segment until `do_pick` is called.
    fn try_pick<V>(data: &mut Self::Data) -> (offer: Option<Output<V>>)
        ensures
            Self::segment(final(data)) == Self::segment(old(data)),
            Self::unread(final(data)) == Self::unread(old(data)),
            match offer {
                Some(output) => {
                    &&& Self::layout() == Layout::of::<V>()
                    &&& output@ == (OutputView {
                        written: Seq::<V>::empty(),
                        cap: Self::segment(old(data)).cap,
                    })
                },
                None => Self::layout() != Layout::of::<V>(),
            },
    ;

    /// Commits to the offer: the allocation belongs to the output segment
    /// from now on, and dropping the tail of `data` will not free it.
    fn do_pick(data: &mut Self::Data)
        requires
            Self::segment(old(data)).alloc == Alloc::Owned,
        ensures
            Self::segment(final(data)) == Self::segment(old(data)).surrendered(),
            Self::unread(final(data)) == Self::unread(old(data)),
    ;

    /// Moves the next item out.
    fn next(data: &mut Self::Data) -> (item: Self::Item)
        requires
            Self::segment(old(data)).wf(),
            Self::unread(old(data)).len() > 0,
        ensures
            item == Self::unread(old(data))[0],
            Self::unread(final(data)) == Self::unread(old(data)).drop_first(),
            Self::segment(final(data)) == Self::segment(old(data)).advanced(),
    ;

    /// Drops the items that were not read and frees the allocation unless
    /// `do_pick` was called.
    fn drop_rest(data: &mut Self::Data)
        ensures
            Self::segment(final(data)) == Self::segment(old(data)).dropped(),
            Self::unread(final(data)) == Seq::<Self::Item>::empty(),
    ;
}

impl<A> TupleElem for Vec<A> {
    type Item = A;

    type Data = Input<A>;

    open spec fn layout() -> Layout {
        Layout::of::<A>()
    }

    open spec fn items(&self) -> Seq<A> {
        self@
    }

    open spec fn segment(data: &Input<A>) -> Segment {
        data.segment()
    }

    open spec fn unread(data: &Input<A>) -> Seq<A> {
        data@.unread
    }

    proof fn lemma_segment(data: &Input<A>) {
    }

    #[inline(always)]
    fn capacity(data: &Input<A>) -> (cap: usize) {
        data.capacity()
    }

    #[inline(always)]
    fn len(&self) -> (len: usize) {
        self.len()
    }

    #[inline]
    fn into_data(self) -> (data: Input<A>) {
        Input::from(self)
    }

    #[inline]
    fn check_pick<V>(&self) -> (matches: bool) {
        same_layout::<A, V>()
    }

    #[inline]
    fn try_pick<V>(data: &mut Input<A>) -> (offer: Option<Output<V>>) {
        if same_layout::<A, V>() {
            Some(Output::new(data.capacity()))
        } else {
            None
        }
    }

    #[inline]
    fn do_pick(data: &mut Input<A>) {
        data.surrender_allocation();
    }

    #[inline]
    fn next(data: &mut Input<A>) -> (item: A) {
        data.next()
    }

    #[inline]
    fn drop_rest(data: &mut Input<A>) {
        data.drop();
    }
}

/// A list of inputs that are zipped together: either a single input, `(a,)`,
/// or an input followed by such a list, `(a, rest)`.
pub trait Tuple: Sized {
    /// One item of every input.
    type Item;

    /// The data segments of the inputs.
    type Data;

    /// The item layout of every input, in the order of the list.
    spec fn layouts() -> Seq<Layout>;

    /// The length of every input, in the order of the list.
    spec fn lengths(&self) -> Seq<nat>;

    /// The rows: the `i`-th holds the `i`-th item of every input.
    spec fn rows(&self) -> Seq<Self::Item>;

    /// The data segments without their items, in the order of the list.
    spec fn segments(data: &Self::Data) -> Seq<Segment>;

    /// The rows that have not been read.
    spec fn unread(data: &Self::Data) -> Seq<Self::Item>;

    /// There are as many rows as the shortest input has items.
    proof fn lemma_rows(&self)
        ensures
            self.lengths().len() == Self::layouts().len(),
            is_min_of(self.lengths(), self.rows().len()),
    ;

    /// There is one segment for every input, with the layout of its items,
    /// and it has an item left for every row that has not been read.
    proof fn lemma_segments(data: &Self::Data)
        ensures
            Self::segments(data).len() == Self::layouts().len(),
            Self::segments(data).len() > 0,
            forall|i: int|
                0 <= i < Self::segments(data).len() ==> {
                    &&& (#[trigger] Self::segments(data)[i]).layout == Self::layouts()[i]
                    &&& Self::unread(data).len() <= Self::segments(data)[i].unread
                },
    ;

    /// Converts every input into its data segment.
    fn into_data(self) -> (data: Self::Data)
        ensures
            Self::unread(&data) == self.rows(),
            all_wf(Self::segments(&data)),
            all_owned(Self::segments(&data)),
            forall|i: int|
                0 <= i < Self::segments(&data).len() ==> (#[trigger] Self::segments(&data)[i]).read
                    == 0,
    ;

    /// Whether some input has an allocation that can hold items of type `V`.
    fn check_pick<V>(&self) -> (matches: bool)
        ensures
            matches == any_matches(Self::layouts(), Layout::of::<V>()),
    ;

    /// Makes the allocation of an input the output: of the inputs whose
    /// allocation can hold items of type `V`, the one with the largest
    /// capacity, and of several such the first. Without such an input
    /// nothing changes.
    fn pick<V>(data: &mut Self::Data) -> (output: Option<Output<V>>)
        requires
            depth_fits(Self::layouts()),
            all_owned(Self::segments(old(data))),
        ensures
            Self::unread(final(data)) == Self::unread(old(data)),
            match output {
                Some(output) => {
                    let segs = Self::segments(old(data));
                    let k = pick(segs, Layout::of::<V>());
                    &&& is_pick(segs, Layout::of::<V>(), k)
                    &&& Self::segments(final(data)) == segs.update(k, segs[k].surrendered())
                    &&& output@ == (OutputView { written: Seq::<V>::empty(), cap: segs[k].cap })
                },
                None => {
                    &&& !any_matches(Self::layouts(), Layout::of::<V>())
                    &&& Self::segments(final(data)) == Self::segments(old(data))
                },
            },
    ;

    /// The offer that `pick` would take, if there is any: the output segment
    /// and the place of the input that offers it.
    fn pick_impl<V>(data: &mut Self::Data) -> (offer: Option<OutputData<V>>)
        requires
            depth_fits(Self::layouts()),
        ensures
            Self::segments(final(data)) == Self::segments(old(data)),
            Self::unread(final(data)) == Self::unread(old(data)),
            match offer {
                Some(offer) => {
                    let segs = Self::segments(old(data));
                    let k = pick(segs, Layout::of::<V>());
                    &&& is_pick(segs, Layout::of::<V>(), k)
                    &&& offer.index() == k
                    &&& offer.output() == (OutputView {
                        written: Seq::<V>::empty(),
                        cap: segs[k].cap,
                    })
                },
                None => !any_matches(Self::layouts(), Layout::of::<V>()),
            },
    ;

    /// Commits to the offer of the input that `index` inputs come before.
    fn commit(data: &mut Self::Data, index: u64)
        requires
            index < Self::segments(old(data)).len(),
            Self::segments(old(data))[index as int].alloc == Alloc::Owned,
        ensures
            Self::segments(final(data)) == Self::segments(old(data)).update(
                index as int,
                Self::segments(old(data))[index as int].surrendered(),
            ),
            Self::unread(final(data)) == Self::unread(old(data)),
    ;

    /// Moves the next row out: one item of every input.
    fn next(data: &mut Self::Data) -> (item: Self::Item)
        requires
            all_wf(Self::segments(old(data))),
            Self::unread(old(data)).len() > 0,
        ensures
            item == Self::unread(old(data))[0],
            Self::unread(final(data)) == Self::unread(old(data)).drop_first(),
            Self::segments(final(data)) == advance(Self::segments(old(data))),
    ;

    /// Drops the tail of every input and frees every allocation that was not
    /// given up.
    fn drop_rest(data: &mut Self::Data)
        ensures
            Self::segments(final(data)) == drop_tails(Self::segments(old(data))),
            Self::unread(final(data)) == Seq::<Self::Item>::empty(),
    ;
}

impl<A: TupleElem> Tuple for (A,) {
    type Item = A::Item;

    type Data = A::Data;

    open spec fn layouts() -> Seq<Layout> {
        seq![A::layout()]
    }

    open spec fn lengths(&self) -> Seq<nat> {
        seq![self.0.items().len()]
    }

    open spec fn rows(&self) -> Seq<A::Item> {
        self.0.items()
    }

    open spec fn segments(data: &A::Data) -> Seq<Segment> {
        seq![A::segment(data)]
    }

    open spec fn unread(data: &A::Data) -> Seq<A::Item> {
        A::unread(data)
    }

    proof fn lemma_rows(&self) {
        assert(self.lengths()[0] == self.rows().len());
    }

    proof fn lemma_segments(data: &A::Data) {
        A::lemma_segment(data);
    }

    #[inline]
    fn into_data(self) -> (data: A::Data) {
        self.0.into_data()
    }

    #[inline]
    fn check_pick<V>(&self) -> (matches: bool) {
        let matches = self.0.check_pick::<V>();
        proof {
            assert(Self::layouts()[0] == A::layout());
        }
        matches
    }

    #[inline]
    fn pick<V>(data: &mut A::Data) -> (output: Option<Output<V>>) {
        proof {
            A::lemma_segment(data);
            assert(Self::layouts()[0] == A::layout());
            assert(Self::segments(data)[0].alloc == Alloc::Owned);
        }
        match A::try_pick::<V>(data) {
            Some(output) => {
                A::do_pick(data);
                proof {
                    let segs = Self::segments(old(data));
                    assert(is_pick(segs, Layout::of::<V>(), 0));
                    lemma_pick_unique(segs, Layout::of::<V>(), 0, pick(segs, Layout::of::<V>()));
                    assert(Self::segments(data) =~= segs.update(0, segs[0].surrendered()));
                }
                Some(output)
            },
            None => {
                proof {
                    assert(Self::segments(data) =~= Self::segments(old(data)));
                }
                None
            },
        }
    }

    #[inline]
    fn pick_impl<V>(data: &mut A::Data) -> (offer: Option<OutputData<V>>) {
        proof {
            A::lemma_segment(data);
            assert(Self::layouts()[0] == A::layout());
        }
        match A::try_pick(data) {
            Some(output) => {
                proof {
                    let segs = Self::segments(old(data));
                    assert(is_pick(segs, Layout::of::<V>(), 0));
                    lemma_pick_unique(segs, Layout::of::<V>(), 0, pick(segs, Layout::of::<V>()));
                    assert(Self::segments(data) =~= segs);
                }
                Some(OutputData { output, index: 0 })
            },
            None => {
                proof {
                    assert(Self::segments(data) =~= Self::segments(old(data)));
                }
                None
            },
        }
    }

    #[inline]
    fn commit(data: &mut A::Data, index: u64) {
        A::do_pick(data);
        proof {
            let segs = Self::segments(old(data));
            assert(Self::segments(data) =~= segs.update(0, segs[0].surrendered()));
        }
    }

    #[inline]
    fn next(data: &mut A::Data) -> (item: A::Item) {
        proof {
            assert(Self::segments(data)[0].wf());
        }
        let item = A::next(data);
        proof {
            assert(Self::segments(data) =~= advance(Self::segments(old(data))));
        }
        item
    }

    #[inline]
    fn drop_rest(data: &mut A::Data) {
        A::drop_rest(data);
        proof {
            assert(Self::segments(data) =~= drop_tails(Self::segments(old(data))));
        }
    }
}

impl<A: TupleElem, T: Tuple> Tuple for (A, T) {
    type Item = (A::Item, T::Item);

    type Data = (A::Data, T::Data);

    open spec fn layouts() -> Seq<Layout> {
        seq![A::layout()] + T::layouts()
    }

    open spec fn lengths(&self) -> Seq<nat> {
        seq![self.0.items().len()] + self.1.lengths()
    }

    open spec fn rows(&self) -> Seq<(A::Item, T::Item)> {
        zip_rows(self.0.items(), self.1.rows())
    }

    open spec fn segments(data: &(A::Data, T::Data)) -> Seq<Segment> {
        seq![A::segment(&data.0)] + T::segments(&data.1)
    }

    open spec fn unread(data: &(A::Data, T::Data)) -> Seq<(A::Item, T::Item)> {
        zip_rows(A::unread(&data.0), T::unread(&data.1))
    }

    proof fn lemma_rows(&self) {
        self.1.lemma_rows();
        let lens = self.lengths();
        let rest = self.1.lengths();
        let n = self.rows().len();
        assert forall|i: int| 0 <= i < lens.len() implies n <= #[trigger] lens[i] by {
            if i > 0 {
                assert(lens[i] == rest[i - 1]);
            }
        }
        if self.0.items().len() <= self.1.rows().len() {
            assert(lens[0] == n);
        } else {
            let j = choose|j: int| 0 <= j < rest.len() && #[trigger] rest[j] == self.1.rows().len();
            assert(lens[j + 1] == n);
        }
    }

    proof fn lemma_segments(data: &(A::Data, T::Data)) {
        A::lemma_segment(&data.0);
        T::lemma_segments(&data.1);
        let segs = Self::segments(data);
        let rest = T::segments(&data.1);
        assert forall|i: int| 0 <= i < segs.len() implies {
            &&& (#[trigger] segs[i]).layout == Self::layouts()[i]
            &&& Self::unread(data).len() <= segs[i].unread
        } by {
            if i > 0 {
                assert(segs[i] == rest[i - 1]);
            }
        }
    }

    #[inline]
    fn into_data(self) -> (data: (A::Data, T::Data)) {
        let data = (self.0.into_data(), self.1.into_data());
        proof {
            let segs = Self::segments(&data);
            let rest = T::segments(&data.1);
            assert forall|i: int| 0 <= i < segs.len() implies {
                &&& (#[trigger] segs[i]).wf()
                &&& segs[i].read == 0
                &&& segs[i].alloc == Alloc::Owned
            } by {
                if i > 0 {
                    assert(segs[i] == rest[i - 1]);
                }
            }
        }
        data
    }

    #[inline]
    fn check_pick<V>(&self) -> (matches: bool) {
        let first = self.0.check_pick::<V>();
        let rest = self.1.check_pick::<V>();
        proof {
            let target = Layout::of::<V>();
            let all = Self::layouts();
            if first {
                assert(all[0] == target);
            }
            if rest {
                let j = choose|j: int| 0 <= j < T::layouts().len() && #[trigger] T::layouts()[j] == target;
                assert(all[j + 1] == target);
            }
            if any_matches(all, target) {
                let i = choose|i: int| 0 <= i < all.len() && #[trigger] all[i] == target;
                if i > 0 {
                    assert(T::layouts()[i - 1] == target);
                }
            }
        }
        first || rest
    }

    #[inline]
    fn pick<V>(data: &mut (A::Data, T::Data)) -> (output: Option<Output<V>>) {
        match Self::pick_impl(data) {
            Some(offer) => {
                proof {
                    Self::lemma_segments(data);
                }
                Self::commit(data, offer.index);
                Some(offer.output)
            },
            None => None,
        }
    }

    #[inline]
    fn pick_impl<V>(data: &mut (A::Data, T::Data)) -> (offer: Option<OutputData<V>>) {
        let ghost target = Layout::of::<V>();
        let ghost segs = Self::segments(data);
        proof {
            A::lemma_segment(&data.0);
            T::lemma_segments(&data.1);
            Self::lemma_segments(data);
        }
        let rest_pick = T::pick_impl::<V>(&mut data.1);
        let own = A::try_pick::<V>(&mut data.0);
        proof {
            assert(Self::segments(data) =~= segs);
            let rest = T::segments(&data.1);
            if some_matches(rest, target) {
                let i = choose|i: int| 0 <= i < rest.len() && (#[trigger] rest[i]).layout == target;
                assert(T::layouts()[i] == target);
            }
            lemma_pick_cons(A::segment(&data.0), rest, target);
            if any_matches(Self::layouts(), target) {
                let i = choose|i: int|
                    0 <= i < Self::layouts().len() && #[trigger] Self::layouts()[i] == target;
                assert(segs[i].layout == target);
            }
        }
        match own {
            None => match rest_pick {
                Some(chosen) => Some(OutputData { output: chosen.output, index: chosen.index + 1 }),
                None => None,
            },
            Some(output) => {
                if let Some(rest_output) = rest_pick {
                    if output.capacity() < rest_output.output.capacity() {
                        return Some(
                            OutputData { output: rest_output.output, index: rest_output.index + 1 },
                        );
                    }
                }
                Some(OutputData { output, index: 0 })
            },
        }
    }

    #[inline]
    fn commit(data: &mut (A::Data, T::Data), index: u64) {
        let ghost segs = Self::segments(data);
        let ghost rest = T::segments(&data.1);
        if index == 0 {
            A::do_pick(&mut data.0);
            proof {
                assert(Self::segments(data) =~= segs.update(0, segs[0].surrendered()));
            }
        } else {
            proof {
                assert(segs[index as int] == rest[index - 1]);
            }
            T::commit(&mut data.1, index - 1);
            proof {
                assert(Self::segments(data) =~= segs.update(
                    index as int,
                    segs[index as int].surrendered(),
                ));
            }
        }
    }

    #[inline]
    fn next(data: &mut (A::Data, T::Data)) -> (item: (A::Item, T::Item)) {
        let ghost segs = Self::segments(data);
        let ghost rest = T::segments(&data.1);
        proof {
            assert(segs[0].wf());
            assert forall|i: int| 0 <= i < rest.len() implies (#[trigger] rest[i]).wf() by {
                assert(segs[i + 1] == rest[i]);
            }
        }
        let first = A::next(&mut data.0);
        let others = T::next(&mut data.1);
        proof {
            assert(Self::segments(data) =~= advance(segs));
            assert(Self::unread(data) =~= Self::unread(old(data)).drop_first());
        }
        (first, others)
    }

    #[inline]
    fn drop_rest(data: &mut (A::Data, T::Data)) {
        let ghost segs = Self::segments(data);
        A::drop_rest(&mut data.0);
        T::drop_rest(&mut data.1);
        proof {
            assert(Self::segments(data) =~= drop_tails(segs));
            assert(Self::unread(data) =~= Seq::<(A::Item, T::Item)>::empty());
        }
    }
}

/// A list of buffers that can be zipped.
pub trait InitTuple: Tuple {
    /// The number of rows: the length of the shortest buffer.
    fn min_len(&self) -> (len: usize)
        ensures
            len == self.rows().len(),
    ;

    /// Converts into the sequence of the rows, for when no allocation can be
    /// taken over.
    fn into_iter(self) -> (rows: Vec<Self::Item>)
        ensures
            rows@ == self.rows(),
    ;
}

impl<A> InitTuple for (Vec<A>,) {
    #[inline]
    fn min_len(&self) -> (len: usize) {
        self.0.len()
    }

    #[inline]
    fn into_iter(self) -> (rows: Vec<A>) {
        self.0
    }
}

impl<Tup: InitTuple, A> InitTuple for (Vec<A>, Tup) {
    #[inline]
    fn min_len(&self) -> (len: usize) {
        let first = self.0.len();
        let rest = self.1.min_len();
        if first <= rest {
            first
        } else {
            rest
        }
    }

    #[inline]
    fn into_iter(self) -> (rows: Vec<(A, Tup::Item)>) {
        zip_vecs(self.0, self.1.into_iter())
    }
}

/// The zip engine. It owns the data segments of the inputs and the output
/// segment, moves one row after the other out of the inputs and writes what
/// the transform makes of it to the output.
pub struct ZipWithIter<V, In: Tuple> {
    // the buffer that the results are written into; its allocation is the one
    // that an input gave up
    out: Output<V>,
    // the inputs; they are only read from
    input: In::Data,
    // the number of rows at the start
    init_len: usize,
    // the number of rows that were not started yet
    min_len: usize,
}

impl<V, In: Tuple> ZipWithIter<V, In> {
    /// The output segment.
    pub closed spec fn out(&self) -> OutputView<V> {
        self.out@
    }

    /// The data segments of the inputs, without their items.
    pub closed spec fn segments(&self) -> Seq<Segment> {
        In::segments(&self.input)
    }

    /// The rows that have not been moved out of the inputs.
    pub closed spec fn unread(&self) -> Seq<In::Item> {
        In::unread(&self.input)
    }

    /// The number of rows that were started.
    pub closed spec fn started(&self) -> int {
        self.init_len - self.min_len
    }

    /// What holds whenever the engine is alive: the rows that are left are
    /// those that were not started, and the output has room for a result per
    /// row.
    pub closed spec fn wf(&self) -> bool {
        &&& self.min_len <= self.init_len
        &&& all_wf(self.segments())
        &&& self.unread().len() == self.min_len
        &&& self.init_len <= self.out@.cap
    }

    /// Between two rows: every row that was started has its result in the
    /// output.
    pub open spec fn running(&self) -> bool {
        self.wf() && self.out().written.len() == self.started()
    }

    /// In the middle of a row: it has been moved out of the inputs and
    /// nothing was written for it.
    pub open spec fn failing(&self) -> bool {
        self.wf() && self.out().written.len() + 1 == self.started()
    }

    /// Takes the inputs over and makes the allocation of one of them the
    /// output: of the inputs whose items have the layout of `V`, the one with
    /// the largest capacity, and of several such the first.
    pub fn new(input: In) -> (engine: Self) where In: InitTuple
        requires
            depth_fits(In::layouts()),
            any_matches(In::layouts(), Layout::of::<V>()),
        ensures
            engine.running(),
            engine.started() == 0,
            engine.unread() == input.rows(),
            engine.out().written == Seq::<V>::empty(),
            ({
                let segs = engine.segments();
                let k = pick(segs, Layout::of::<V>());
                &&& is_pick(segs, Layout::of::<V>(), k)
                &&& engine.out().cap == segs[k].cap
                &&& forall|i: int|
                    0 <= i < segs.len() ==> (#[trigger] segs[i]).alloc == if i == k {
                        Alloc::Surrendered
                    } else {
                        Alloc::Owned
                    }
            }),
    {
        let len = input.min_len();
        let mut data = input.into_data();
        let ghost fresh = In::segments(&data);
        proof {
            In::lemma_segments(&data);
        }
        match In::pick::<V>(&mut data) {
            Some(out) => {
                let engine = ZipWithIter { out, input: data, init_len: len, min_len: len };
                proof {
                    let k = pick(fresh, Layout::of::<V>());
                    assert(fresh[k].wf());
                    lemma_pick_surrendered(fresh, Layout::of::<V>());
                }
                engine
            },
            None => unreached(),
        }
    }

    /// The drop guard: releases the results written so far, with the
    /// allocation of the output, the tail of every input, and every input
    /// allocation that was not given up.
    pub fn drop(&mut self)
        requires
            old(self).running() || old(self).failing(),
        ensures
            final(self).segments() == drop_tails(old(self).segments()),
            final(self).unread() == Seq::<In::Item>::empty(),
            final(self).out() == (OutputView { written: Seq::<V>::empty(), ..old(self).out() }),
    {
        let written = self.out.len();
        self.out.take(written);
        In::drop_rest(&mut self.input);
    }

    /// Runs the engine to its end and hands the output out as a buffer. If
    /// the transform fails, the error is returned and everything that the
    /// engine holds is released.
    pub fn finish<G: Transform<In::Item, Out = V>>(self, g: G) -> (result: Result<Vec<V>, G::Error>)
        requires
            self.running(),
            self.started() == 0,
            accepts_all(&g, self.unread()),
        ensures
            match result {
                Ok(out) => mapped(&g, self.unread(), out@),
                Err(e) => stopped(&g, self.unread(), e),
            },
    {
        let ghost rows = self.unread();
        let mut engine = self;
        let mut transform = g;
        proof {
            assert(engine.unread() =~= rows.skip(0));
        }
        while engine.min_len > 0
            invariant
                transform == g,
                rows == self.unread(),
                engine.running(),
                engine.init_len == rows.len(),
                engine.unread() == rows.skip(engine.started()),
                accepts_all(&g, rows),
                forall|i: int|
                    0 <= i < engine.started() ==> g.yields(rows[i], #[trigger] engine.out@.written[i]),
            decreases engine.min_len,
        {
            let ghost k = engine.started();
            let ghost written = engine.out@.written;
            let ghost current = engine.segments();
            proof {
                In::lemma_segments(&engine.input);
            }
            engine.min_len = engine.min_len - 1;
            let row = In::next(&mut engine.input);
            proof {
                assert(row == rows[k]);
                assert(engine.unread() =~= rows.skip(k + 1));
                assert forall|i: int| 0 <= i < current.len() implies (
                #[trigger] engine.segments()[i]).wf() by {
                    assert(current[i].wf());
                    assert(current[i].unread > 0);
                    assert(engine.segments()[i] == current[i].advanced());
                }
            }
            match transform.apply(row) {
                Ok(value) => {
                    engine.out.write(value);
                    proof {
                        assert forall|i: int| 0 <= i < k + 1 implies g.yields(
                            rows[i],
                            #[trigger] engine.out@.written[i],
                        ) by {
                            if i < k {
                                assert(engine.out@.written[i] == written[i]);
                            }
                        }
                    }
                },
                Err(e) => {
                    proof {
                        assert forall|i: int| 0 <= i < k implies succeeds(&g, #[trigger] rows[i]) by {
                            assert(g.yields(rows[i], written[i]));
                        }
                        assert(stopped_at(&g, rows, k, e));
                    }
                    engine.drop();
                    return Err(e);
                },
            }
        }
        let len = engine.init_len;
        proof {
            assert(engine.out@.written.take(len as int) =~= engine.out@.written);
        }
        In::drop_rest(&mut engine.input);
        Ok(engine.out.into_owned_buffer(len))
    }

    /// Runs the engine to its end with `f` as the transform and hands the
    /// output out as a buffer. If `f` fails, its error is returned and
    /// everything that the engine holds is released.
    pub fn try_into_vec<R: Try<Ok = V>, F: FnMut(In::Item) -> R>(self, f: F) -> (result: Result<
        Vec<V>,
        R::Error,
    >)
        requires
            self.running(),
            self.started() == 0,
            forall|i: int|
                0 <= i < self.unread().len() ==> call_requires(f, (#[trigger] self.unread()[i],)),
        ensures
            match result {
                Ok(out) => try_mapped(f, self.unread(), out@),
                Err(e) => try_stopped(f, self.unread(), e),
            },
    {
        proof {
            lemma_try_each(f, self.unread());
        }
        self.finish(TryEach(f))
    }
}

/// Zips the buffers and applies `f` to every row. The result has one element
/// per row, in the order of the rows. If some buffer has items of the layout
/// of the results, the engine runs with the output standing for the
/// allocation of one such buffer; otherwise the results are collected apart.
/// If `f` fails on a row, its error is returned and no later row is looked
/// at.
pub fn try_zip_with<R: Try, In: InitTuple, F: FnMut(In::Item) -> R>(input: In, f: F) -> (result:
    Result<Vec<R::Ok>, R::Error>)
    requires
        depth_fits(In::layouts()),
        forall|i: int| 0 <= i < input.rows().len() ==> call_requires(f, (#[trigger] input.rows()[i],)),
    ensures
        match result {
            Ok(out) => try_mapped(f, input.rows(), out@),
            Err(e) => try_stopped(f, input.rows(), e),
        },
{
    if input.check_pick::<R::Ok>() {
        ZipWithIter::<R::Ok, In>::new(input).try_into_vec(f)
    } else {
        proof {
            lemma_try_each(f, input.rows());
        }
        collect_rows(input.into_iter(), TryEach(f))
    }
}

} // verus!
