//! Zipping any number of buffers: the inputs form a list built from pairs,
//! `(a, (b, (c,)))`, and the engine walks all of them in lockstep.

use vstd::prelude::*;
use crate::layout::{same_layout, Layout};
use crate::transform::{
    accepts_all, lemma_try_each, mapped, stopped, stopped_at, succeeds, try_mapped, try_stopped,
    Transform, TryEach,
};
use crate::try_trait::Try;
use crate::vec::{into_queue, Alloc, Input, Output, OutputView, Segment};

verus! {

/// Every segment holds no more than its allocation has room for.
pub open spec fn all_wf(segs: Seq<Segment>) -> bool {
    forall|i: int| 0 <= i < segs.len() ==> (#[trigger] segs[i]).wf()
}

/// No segment has been read from, and each still owns its allocation.
pub open spec fn all_fresh(segs: Seq<Segment>) -> bool {
    forall|i: int|
        0 <= i < segs.len() ==> (#[trigger] segs[i]).read == 0 && segs[i].alloc == Alloc::Owned
}

/// Every segment still owns its allocation.
pub open spec fn all_owned(segs: Seq<Segment>) -> bool {
    forall|i: int| 0 <= i < segs.len() ==> (#[trigger] segs[i]).alloc == Alloc::Owned
}

/// Exactly `count` elements have been moved out of every segment.
pub open spec fn all_read(segs: Seq<Segment>, count: nat) -> bool {
    forall|i: int| 0 <= i < segs.len() ==> (#[trigger] segs[i]).read == count
}

/// No segment has anything left to clean up.
pub open spec fn all_released(segs: Seq<Segment>) -> bool {
    forall|i: int| 0 <= i < segs.len() ==> (#[trigger] segs[i]).released()
}

/// The segments after `count` elements have been moved out of each.
pub open spec fn advance_by(segs: Seq<Segment>, count: nat) -> Seq<Segment> {
    Seq::new(segs.len(), |i: int| segs[i].advanced_by(count))
}

/// The segments after one element has been moved out of each.
pub open spec fn advance(segs: Seq<Segment>) -> Seq<Segment> {
    advance_by(segs, 1)
}

/// The segments after the tail of each has been dropped.
pub open spec fn drop_tails(segs: Seq<Segment>) -> Seq<Segment> {
    Seq::new(segs.len(), |i: int| segs[i].dropped())
}

/// Some segment has elements of the layout `target`.
pub open spec fn any_matches(layouts: Seq<Layout>, target: Layout) -> bool {
    exists|i: int| 0 <= i < layouts.len() && #[trigger] layouts[i] == target
}

/// Some segment has elements of the layout `target`.
pub open spec fn some_matches(segs: Seq<Segment>, target: Layout) -> bool {
    exists|i: int| 0 <= i < segs.len() && (#[trigger] segs[i]).layout == target
}

/// `k` is the segment whose allocation an output of layout `target` takes
/// over: its layout is `target`, no segment of that layout has a larger
/// capacity, and among those of equal capacity it comes first.
pub open spec fn is_pick(segs: Seq<Segment>, target: Layout, k: int) -> bool {
    &&& 0 <= k < segs.len()
    &&& segs[k].layout == target
    &&& forall|j: int|
        0 <= j < segs.len() && (#[trigger] segs[j]).layout == target ==> {
            ||| segs[j].cap < segs[k].cap
            ||| segs[j].cap == segs[k].cap && k <= j
        }
}

/// At most one segment is the pick.
pub proof fn lemma_pick_unique(segs: Seq<Segment>, target: Layout, a: int, b: int)
    requires
        is_pick(segs, target, a),
        is_pick(segs, target, b),
    ensures
        a == b,
{
}

/// The pick among two runs of segments laid end to end is the pick of the
/// run that has one, and of two picks the one with the larger capacity, the
/// left one if they are equally large.
pub proof fn lemma_pick_concat(a: Seq<Segment>, b: Seq<Segment>, target: Layout, ka: int, kb: int)
    ensures
        is_pick(a, target, ka) && (forall|j: int|
            0 <= j < b.len() ==> (#[trigger] b[j]).layout != target) ==> is_pick(a + b, target, ka),
        is_pick(b, target, kb) && (forall|j: int|
            0 <= j < a.len() ==> (#[trigger] a[j]).layout != target) ==> is_pick(
            a + b,
            target,
            a.len() + kb,
        ),
        is_pick(a, target, ka) && is_pick(b, target, kb) ==> is_pick(
            a + b,
            target,
            if a[ka].cap >= b[kb].cap {
                ka
            } else {
                a.len() + kb
            },
        ),
{
    let all = a + b;
    assert forall|j: int| 0 <= j < all.len() implies #[trigger] all[j] == if j < a.len() {
        a[j]
    } else {
        b[j - a.len()]
    } by {}
    if is_pick(a, target, ka) && (forall|j: int|
        0 <= j < b.len() ==> (#[trigger] b[j]).layout != target) {
        assert forall|j: int| 0 <= j < all.len() && (#[trigger] all[j]).layout == target implies {
            ||| all[j].cap < all[ka].cap
            ||| all[j].cap == all[ka].cap && ka <= j
        } by {
            if j < a.len() {
                assert(a[j].layout == target);
            } else {
                assert(b[j - a.len()].layout == target);
            }
        }
    }
    if is_pick(b, target, kb) && (forall|j: int|
        0 <= j < a.len() ==> (#[trigger] a[j]).layout != target) {
        let k = a.len() + kb;
        assert forall|j: int| 0 <= j < all.len() && (#[trigger] all[j]).layout == target implies {
            ||| all[j].cap < all[k].cap
            ||| all[j].cap == all[k].cap && k <= j
        } by {
            if j < a.len() {
                assert(a[j].layout == target);
            } else {
                assert(b[j - a.len()].layout == target);
            }
        }
    }
    if is_pick(a, target, ka) && is_pick(b, target, kb) {
        let k = if a[ka].cap >= b[kb].cap {
            ka
        } else {
            a.len() + kb
        };
        assert forall|j: int| 0 <= j < all.len() && (#[trigger] all[j]).layout == target implies {
            ||| all[j].cap < all[k].cap
            ||| all[j].cap == all[k].cap && k <= j
        } by {
            if j < a.len() {
                assert(a[j].layout == target);
            } else {
                assert(b[j - a.len()].layout == target);
            }
        }
    }
}

/// No element is leaked. Whatever the number of rows after which the engine
/// stops, once the tails have been dropped no input has an element left, and
/// none has an allocation that it would still have to free.
pub proof fn lemma_no_leak(segs: Seq<Segment>, steps: nat)
    ensures
        all_released(drop_tails(advance_by(segs, steps))),
{
}

/// No element is dropped twice. The elements of an input leave it in one of
/// two ways, as part of a row that is handed to the transform or with the
/// tail that is dropped at the end, and the two add up to what the input held
/// at the start: no element is counted on both sides.
pub proof fn lemma_no_double_drop(segs: Seq<Segment>, steps: nat)
    requires
        forall|i: int| 0 <= i < segs.len() ==> steps <= (#[trigger] segs[i]).unread,
    ensures
        ({
            let stopped = advance_by(segs, steps);
            let end = drop_tails(stopped);
            forall|i: int|
                0 <= i < segs.len() ==> {
                    &&& (#[trigger] stopped[i]).read == segs[i].read + steps
                    &&& stopped[i].unread + steps == segs[i].unread
                    &&& end[i].read == stopped[i].read
                    &&& end[i].unread == 0
                }
        }),
{
}

/// No allocation is leaked and none is freed twice. Of inputs that all own
/// their allocation at the start, the one that is picked hands its allocation
/// to the output, which the caller gets with the result or the guard frees
/// with what was written; every other input has freed its own by the end.
pub proof fn lemma_allocations_accounted(segs: Seq<Segment>, target: Layout, steps: nat)
    requires
        all_owned(segs),
        any_matches(Seq::new(segs.len(), |i: int| segs[i].layout), target),
    ensures
        ({
            let k = pick(segs, target);
            let end = drop_tails(advance_by(segs.update(k, segs[k].surrendered()), steps));
            &&& is_pick(segs, target, k)
            &&& end[k].alloc == Alloc::Surrendered
            &&& forall|i: int| 0 <= i < segs.len() && i != k ==> (#[trigger] end[i]).alloc == Alloc::Freed
        }),
{
    lemma_pick_exists(segs, target);
    let k = pick(segs, target);
    let taken = segs.update(k, segs[k].surrendered());
    let end = drop_tails(advance_by(taken, steps));
    assert forall|i: int| 0 <= i < segs.len() && i != k implies (#[trigger] end[i]).alloc
        == Alloc::Freed by {
        assert(taken[i] == segs[i]);
        assert(segs[i].alloc == Alloc::Owned);
    }
}

/// Where no input can hand its allocation to the output, every input has
/// freed its own by the end.
pub proof fn lemma_allocations_freed(segs: Seq<Segment>, steps: nat)
    requires
        all_owned(segs),
    ensures
        forall|i: int|
            0 <= i < segs.len() ==> (#[trigger] drop_tails(advance_by(segs, steps))[i]).alloc
                == Alloc::Freed,
{
    let end = drop_tails(advance_by(segs, steps));
    assert forall|i: int| 0 <= i < segs.len() implies (#[trigger] end[i]).alloc == Alloc::Freed by {
        assert(segs[i].alloc == Alloc::Owned);
    }
}

/// Whenever some segment has the layout `target`, one of them is the pick.
pub proof fn lemma_pick_exists(segs: Seq<Segment>, target: Layout)
    requires
        any_matches(Seq::new(segs.len(), |i: int| segs[i].layout), target),
    ensures
        is_pick(segs, target, pick(segs, target)),
    decreases segs.len(),
{
    let layouts = Seq::new(segs.len(), |i: int| segs[i].layout);
    let m = choose|i: int| 0 <= i < layouts.len() && #[trigger] layouts[i] == target;
    assert(segs[m].layout == target);
    let rest = segs.drop_last();
    let last = segs.len() - 1;
    let rest_layouts = Seq::new(rest.len(), |i: int| rest[i].layout);
    if exists|i: int| 0 <= i < rest.len() && (#[trigger] rest[i]).layout == target {
        let j = choose|i: int| 0 <= i < rest.len() && (#[trigger] rest[i]).layout == target;
        assert(rest_layouts[j] == target);
        lemma_pick_exists(rest, target);
        let k = pick(rest, target);
        assert forall|i: int| 0 <= i < rest.len() implies #[trigger] rest[i] == segs[i] by {}
        if segs[last].layout == target && segs[last].cap > rest[k].cap {
            assert forall|j: int|
                0 <= j < segs.len() && (#[trigger] segs[j]).layout == target implies {
                ||| segs[j].cap < segs[last].cap
                ||| segs[j].cap == segs[last].cap && last <= j
            } by {
                if j < last {
                    assert(rest[j].layout == target);
                }
            }
            assert(is_pick(segs, target, last));
        } else {
            assert forall|j: int|
                0 <= j < segs.len() && (#[trigger] segs[j]).layout == target implies {
                ||| segs[j].cap < segs[k].cap
                ||| segs[j].cap == segs[k].cap && k <= j
            } by {
                if j < last {
                    assert(rest[j].layout == target);
                }
            }
            assert(is_pick(segs, target, k));
        }
    } else {
        assert(m == last) by {
            if m < last {
                assert(rest[m].layout == target);
            }
        }
        assert forall|j: int| 0 <= j < segs.len() && (#[trigger] segs[j]).layout == target implies {
            ||| segs[j].cap < segs[last].cap
            ||| segs[j].cap == segs[last].cap && last <= j
        } by {
            if j < last {
                assert(rest[j].layout == target);
            }
        }
        assert(is_pick(segs, target, last));
    }
}

/// Which input hands its allocation to the output is decided by the layouts
/// and the capacities alone: inputs that agree in these have the same pick,
/// whatever their elements are and however many there are in each.
pub proof fn lemma_pick_ignores_values(a: Seq<Segment>, b: Seq<Segment>, target: Layout, k: int)
    requires
        a.len() == b.len(),
        forall|i: int|
            0 <= i < a.len() ==> (#[trigger] a[i]).layout == b[i].layout && a[i].cap == b[i].cap,
    ensures
        is_pick(a, target, k) <==> is_pick(b, target, k),
{
    if is_pick(a, target, k) {
        assert(a[k].layout == b[k].layout);
        assert forall|j: int| 0 <= j < b.len() && (#[trigger] b[j]).layout == target implies {
            ||| b[j].cap < b[k].cap
            ||| b[j].cap == b[k].cap && k <= j
        } by {
            assert(a[j].layout == target);
        }
    }
    if is_pick(b, target, k) {
        assert(a[k].layout == b[k].layout);
        assert forall|j: int| 0 <= j < a.len() && (#[trigger] a[j]).layout == target implies {
            ||| a[j].cap < a[k].cap
            ||| a[j].cap == a[k].cap && k <= j
        } by {
            assert(a[j].layout == b[j].layout);
            assert(b[j].layout == target);
        }
    }
}

/// The pick of a list of segments, told from its first segment and the pick
/// among the rest: the first segment if its layout is `target` and nothing
/// in the rest of that layout has more room, else the pick of the rest, one
/// place further on.
pub proof fn lemma_pick_cons(head: Segment, rest: Seq<Segment>, target: Layout)
    requires
        some_matches(rest, target) ==> is_pick(rest, target, pick(rest, target)),
    ensures
        ({
            let segs = seq![head] + rest;
            let k = pick(rest, target);
            if head.layout == target && (!some_matches(rest, target) || head.cap >= rest[k].cap) {
                is_pick(segs, target, 0) && pick(segs, target) == 0
            } else if some_matches(rest, target) {
                is_pick(segs, target, k + 1) && pick(segs, target) == k + 1
            } else {
                !some_matches(segs, target)
            }
        }),
{
    let first = seq![head];
    let segs = first + rest;
    let k = pick(rest, target);
    assert(first[0] == head);
    assert forall|j: int| 0 <= j < segs.len() implies #[trigger] segs[j] == if j == 0 {
        head
    } else {
        rest[j - 1]
    } by {}
    lemma_pick_concat(first, rest, target, 0, k);
    if head.layout == target {
        assert(is_pick(first, target, 0));
    }
    if !some_matches(rest, target) {
        assert forall|j: int| 0 <= j < rest.len() implies (#[trigger] rest[j]).layout != target by {}
    }
    if head.layout == target && (!some_matches(rest, target) || head.cap >= rest[k].cap) {
        lemma_pick_unique(segs, target, 0, pick(segs, target));
    } else if some_matches(rest, target) {
        assert(is_pick(segs, target, k + 1));
        lemma_pick_unique(segs, target, k + 1, pick(segs, target));
    } else {
        if some_matches(segs, target) {
            let i = choose|i: int| 0 <= i < segs.len() && (#[trigger] segs[i]).layout == target;
            assert(i > 0);
            assert(rest[i - 1].layout == target);
        }
    }
}

/// When the pick gives its allocation up, it stays the pick, every segment
/// stays as well formed and as far read as it was, and it is the one segment
/// that does not own its allocation any more.
pub proof fn lemma_pick_surrendered(fresh: Seq<Segment>, target: Layout)
    requires
        all_owned(fresh),
        is_pick(fresh, target, pick(fresh, target)),
    ensures
        ({
            let k = pick(fresh, target);
            let segs = fresh.update(k, fresh[k].surrendered());
            &&& is_pick(segs, target, k)
            &&& pick(segs, target) == k
            &&& all_wf(fresh) ==> all_wf(segs)
            &&& forall|count: nat| all_read(fresh, count) ==> all_read(segs, count)
            &&& forall|i: int|
                0 <= i < segs.len() ==> (#[trigger] segs[i]).alloc == if i == k {
                    Alloc::Surrendered
                } else {
                    Alloc::Owned
                }
        }),
{
    let k = pick(fresh, target);
    let segs = fresh.update(k, fresh[k].surrendered());
    assert forall|j: int| 0 <= j < segs.len() && (#[trigger] segs[j]).layout == target implies {
        ||| segs[j].cap < segs[k].cap
        ||| segs[j].cap == segs[k].cap && k <= j
    } by {
        assert(fresh[j].layout == target);
    }
    assert(is_pick(segs, target, k));
    lemma_pick_unique(segs, target, k, pick(segs, target));
    if all_wf(fresh) {
        assert forall|i: int| 0 <= i < segs.len() implies (#[trigger] segs[i]).wf() by {
            assert(fresh[i].wf());
        }
    }
    assert forall|count: nat| all_read(fresh, count) implies all_read(segs, count) by {
        assert forall|i: int| 0 <= i < segs.len() implies (#[trigger] segs[i]).read == count by {
            assert(fresh[i].read == count);
        }
    }
    assert forall|i: int| 0 <= i < segs.len() implies (#[trigger] segs[i]).alloc == if i == k {
        Alloc::Surrendered
    } else {
        Alloc::Owned
    } by {
        assert(fresh[i].alloc == Alloc::Owned);
    }
}

/// The rows of two sequences walked in lockstep: as many as the shorter one
/// has.
pub open spec fn zip_rows<A, B>(a: Seq<A>, b: Seq<B>) -> Seq<(A, B)> {
    Seq::new(
        if a.len() <= b.len() {
            a.len()
        } else {
            b.len()
        },
        |i: int| (a[i], b[i]),
    )
}

/// One input of a zip: a collection whose elements can be moved out one by
/// one and whose allocation an output may take over.
#[allow(clippy::len_without_is_empty)]
pub trait TupleElem: Sized {
    /// The items yielded from this element.
    type Item;

    /// The data segment that an `Output<V>` is derived from and that yields
    /// the `Item`s.
    type Data;

    /// The layout of the items.
    spec fn layout() -> Layout;

    /// The items of the collection, in order.
    spec fn items(&self) -> Seq<Self::Item>;

    /// The data segment without its items.
    spec fn segment(data: &Self::Data) -> Segment;

    /// The items of the data segment that have not been read, in order.
    spec fn unread(data: &Self::Data) -> Seq<Self::Item>;

    /// The segment counts the unread items and has the layout of the items.
    proof fn lemma_segment(data: &Self::Data)
        ensures
            Self::segment(data).unread == Self::unread(data).len(),
            Self::segment(data).layout == Self::layout(),
    ;

    /// The capacity of the data segment.
    fn capacity(data: &Self::Data) -> (cap: usize)
        ensures
            cap == Self::segment(data).cap,
    ;

    /// The number of items in the collection.
    fn len(&self) -> (len: usize)
        ensures
            len == self.items().len(),
    ;

    /// Converts into a data segment that owns the items and the allocation.
    fn into_data(self) -> (data: Self::Data)
        ensures
            Self::unread(&data) == self.items(),
            Self::segment(&data).wf(),
            Self::segment(&data).read == 0,
            Self::segment(&data).alloc == Alloc::Owned,
    ;

    /// Converts into the sequence of the items, for when no allocation can
    /// be taken over.
    fn into_iterator(self) -> (rows: Vec<Self::Item>)
        ensures
            rows@ == self.items(),
    ;

    /// Whether the allocation can hold items of type `V`.
    fn check_layout<V>() -> (matches: bool)
        ensures
            matches == (Self::layout() == Layout::of::<V>()),
    ;

    /// Surrenders the allocation. The output segment that is returned owns
    /// it from now on, and dropping the tail of `data` will not free it.
    fn take_output<V>(data: &mut Self::Data) -> (output: Output<V>)
        requires
            Self::layout() == Layout::of::<V>(),
            Self::segment(old(data)).alloc == Alloc::Owned,
        ensures
            Self::segment(final(data)) == Self::segment(old(data)).surrendered(),
            Self::unread(final(data)) == Self::unread(old(data)),
            output@ == (OutputView {
                written: Seq::<V>::empty(),
                cap: Self::segment(old(data)).cap,
            }),
    ;

    /// Moves the next item out.
    fn next_unchecked(data: &mut Self::Data) -> (item: Self::Item)
        requires
            Self::segment(old(data)).wf(),
            Self::unread(old(data)).len() > 0,
        ensures
            item == Self::unread(old(data))[0],
            Self::unread(final(data)) == Self::unread(old(data)).drop_first(),
            Self::segment(final(data)) == Self::segment(old(data)).advanced(),
    ;

    /// Drops the tail, the items from the `len`-th on, and frees the
    /// allocation unless it was surrendered. `len` has to be the number of
    /// items that were read: the tail begins where reading stopped, so that
    /// the items that are dropped are those that are left, as many as the
    /// segment held at the start less `len`.
    fn drop_rest(data: &mut Self::Data, len: usize)
        requires
            len == Self::segment(old(data)).read,
        ensures
            Self::segment(final(data)) == Self::segment(old(data)).dropped(),
            Self::segment(final(data)).read == len,
            Self::unread(final(data)) == Seq::<Self::Item>::empty(),
    ;
}

impl<A> TupleElem for Vec<A> {
    type Item = A;

    type Data = Input<A>;

    open spec fn layout() -> Layout {
        Layout::of::<A>()
    }

    open spec fn items(&self) -> Seq<A> {
        self@
    }

    open spec fn segment(data: &Input<A>) -> Segment {
        data.segment()
    }

    open spec fn unread(data: &Input<A>) -> Seq<A> {
        data@.unread
    }

    proof fn lemma_segment(data: &Input<A>) {
    }

    #[inline(always)]
    fn capacity(data: &Input<A>) -> (cap: usize) {
        data.capacity()
    }

    #[inline(always)]
    fn len(&self) -> (len: usize) {
        self.len()
    }

    #[inline]
    fn into_data(self) -> (data: Input<A>) {
        Input::from(self)
    }

    #[inline]
    fn into_iterator(self) -> (rows: Vec<A>) {
        self
    }

    #[inline]
    fn check_layout<V>() -> (matches: bool) {
        same_layout::<A, V>()
    }

    #[inline]
    fn take_output<V>(data: &mut Input<A>) -> (output: Output<V>) {
        data.surrender_allocation();
        Output::new(data.capacity())
    }

    #[inline]
    fn next_unchecked(data: &mut Input<A>) -> (item: A) {
        data.next()
    }

    #[inline]
    fn drop_rest(data: &mut Input<A>, len: usize) {
        data.drop();
    }
}

impl<A: TupleElem> TupleElem for (A,) {
    type Item = A::Item;

    type Data = A::Data;

    open spec fn layout() -> Layout {
        A::layout()
    }

    open spec fn items(&self) -> Seq<A::Item> {
        self.0.items()
    }

    open spec fn segment(data: &A::Data) -> Segment {
        A::segment(data)
    }

    open spec fn unread(data: &A::Data) -> Seq<A::Item> {
        A::unread(data)
    }

    proof fn lemma_segment(data: &A::Data) {
        A::lemma_segment(data);
    }

    #[inline(always)]
    fn capacity(data: &A::Data) -> (cap: usize) {
        A::capacity(data)
    }

    #[inline(always)]
    fn len(&self) -> (len: usize) {
        A::len(&self.0)
    }

    #[inline]
    fn into_data(self) -> (data: A::Data) {
        self.0.into_data()
    }

    #[inline]
    fn into_iterator(self) -> (rows: Vec<A::Item>) {
        self.0.into_iterator()
    }

    #[inline]
    fn check_layout<V>() -> (matches: bool) {
        A::check_layout::<V>()
    }

    #[inline]
    fn take_output<V>(data: &mut A::Data) -> (output: Output<V>) {
        A::take_output(data)
    }

    #[inline]
    fn next_unchecked(data: &mut A::Data) -> (item: A::Item) {
        A::next_unchecked(data)
    }

    #[inline]
    fn drop_rest(data: &mut A::Data, len: usize) {
        A::drop_rest(data, len)
    }
}

/// The number of inputs is small enough for the place of each to be counted
/// in a `u64`.
pub open spec fn depth_fits(layouts: Seq<Layout>) -> bool {
    layouts.len() <= u64::MAX + 1
}

/// `n` is the least of `lens`.
pub open spec fn is_min_of(lens: Seq<nat>, n: nat) -> bool {
    &&& forall|i: int| 0 <= i < lens.len() ==> n <= #[trigger] lens[i]
    &&& exists|i: int| 0 <= i < lens.len() && #[trigger] lens[i] == n
}

/// The segment that [`is_pick`] singles out.
pub open spec fn pick(segs: Seq<Segment>, target: Layout) -> int {
    choose|k: int| is_pick(segs, target, k)
}

/// Walks two buffers in lockstep and pairs their elements up; what the longer
/// one has in excess is dropped.
pub fn zip_vecs<A, B>(a: Vec<A>, b: Vec<B>) -> (rows: Vec<(A, B)>)
    ensures
        rows@ == zip_rows(a@, b@),
{
    let mut left = into_queue(a);
    let mut right = into_queue(b);
    let mut rows: Vec<(A, B)> = Vec::new();
    while left.len() > 0 && right.len() > 0
        invariant
            left@.len() + rows@.len() == a@.len(),
            right@.len() + rows@.len() == b@.len(),
            forall|i: int| 0 <= i < left@.len() ==> left@[i] == a@[rows@.len() + i],
            forall|i: int| 0 <= i < right@.len() ==> right@[i] == b@[rows@.len() + i],
            forall|i: int| 0 <= i < rows@.len() ==> rows@[i] == (a@[i], b@[i]),
        decreases left@.len(),
    {
        let x = left.pop_front().unwrap();
        let y = right.pop_front().unwrap();
        rows.push((x, y));
    }
    assert(rows@ =~= zip_rows(a@, b@));
    rows
}

/// A list of inputs that are zipped together: either a single input, `(a,)`,
/// or an input followed by such a list, `(a, rest)`.
pub trait Seal: Sized {
    /// The number of inputs that follow the first one.
    const LEN: u64;

    /// One item of every input.
    type Item;

    /// The data segments of the inputs.
    type Data;

    /// The item layout of every input, in the order of the list.
    spec fn layouts() -> Seq<Layout>;

    /// The length of every input, in the order of the list.
    spec fn lengths(&self) -> Seq<nat>;

    /// The rows: the `i`-th holds the `i`-th item of every input.
    spec fn rows(&self) -> Seq<Self::Item>;

    /// The data segments without their items, in the order of the list.
    spec fn segments(data: &Self::Data) -> Seq<Segment>;

    /// The rows that have not been read.
    spec fn unread(data: &Self::Data) -> Seq<Self::Item>;

    /// The list has `LEN + 1` inputs.
    proof fn lemma_len()
        requires
            depth_fits(Self::layouts()),
        ensures
            Self::layouts().len() == Self::LEN + 1,
    ;

    /// There are as many rows as the shortest input has items.
    proof fn lemma_rows(&self)
        ensures
            self.lengths().len() == Self::layouts().len(),
            is_min_of(self.lengths(), self.rows().len()),
    ;

    /// There is one segment for every input, with the layout of its items,
    /// and it has an item left for every row that has not been read.
    proof fn lemma_segments(data: &Self::Data)
        ensures
            Self::segments(data).len() == Self::layouts().len(),
            forall|i: int|
                0 <= i < Self::segments(data).len() ==> {
                    &&& (#[trigger] Self::segments(data)[i]).layout == Self::layouts()[i]
                    &&& Self::unread(data).len() <= Self::segments(data)[i].unread
                },
    ;

    /// Converts every input into its data segment.
    fn into_data(self) -> (data: Self::Data)
        ensures
            Self::unread(&data) == self.rows(),
            all_wf(Self::segments(&data)),
            all_fresh(Self::segments(&data)),
    ;

    /// The number of rows.
    fn remaining_len(&self) -> (len: usize)
        ensures
            len == self.rows().len(),
    ;

    /// Converts into the sequence of the rows, for when no allocation can be
    /// taken over.
    fn into_iterator(self) -> (rows: Vec<Self::Item>)
        ensures
            rows@ == self.rows(),
    ;

    /// Whether some input has an allocation that can hold items of type `V`.
    fn check_layout<V>() -> (matches: bool)
        ensures
            matches == any_matches(Self::layouts(), Layout::of::<V>()),
    ;

    /// The largest capacity among the inputs whose allocation can hold items
    /// of type `V`, if there is any. `depth` is set to the number of inputs
    /// that follow the one that has it; of several with that capacity the
    /// first is taken.
    fn max_cap<V>(data: &Self::Data, depth: &mut u64) -> (cap: Option<usize>)
        requires
            depth_fits(Self::layouts()),
        ensures
            match cap {
                Some(c) => {
                    let k = pick(Self::segments(data), Layout::of::<V>());
                    &&& is_pick(Self::segments(data), Layout::of::<V>(), k)
                    &&& c == Self::segments(data)[k].cap
                    &&& *final(depth) + k == Self::LEN
                },
                None => {
                    &&& !any_matches(Self::layouts(), Layout::of::<V>())
                    &&& *final(depth) == *old(depth)
                },
            },
    ;

    /// Surrenders the allocation of the input that [`Seal::max_cap`] picks.
    /// The output segment that is returned owns it from now on.
    fn take_output<V>(data: &mut Self::Data) -> (output: Output<V>)
        requires
            depth_fits(Self::layouts()),
            any_matches(Self::layouts(), Layout::of::<V>()),
            all_owned(Self::segments(old(data))),
        ensures
            ({
                let segs = Self::segments(old(data));
                let k = pick(segs, Layout::of::<V>());
                &&& is_pick(segs, Layout::of::<V>(), k)
                &&& Self::segments(final(data)) == segs.update(k, segs[k].surrendered())
                &&& output@ == (OutputView { written: Seq::<V>::empty(), cap: segs[k].cap })
            }),
            Self::unread(final(data)) == Self::unread(old(data)),
    ;

    /// Surrenders the allocation of the input that `depth` inputs follow.
    fn take_output_impl<V>(data: &mut Self::Data, depth: u64) -> (output: Output<V>)
        requires
            depth_fits(Self::layouts()),
            depth <= Self::LEN,
            Self::segments(old(data))[Self::LEN - depth].layout == Layout::of::<V>(),
            Self::segments(old(data))[Self::LEN - depth].alloc == Alloc::Owned,
        ensures
            ({
                let segs = Self::segments(old(data));
                let k = Self::LEN - depth;
                &&& Self::segments(final(data)) == segs.update(k, segs[k].surrendered())
                &&& output@ == (OutputView { written: Seq::<V>::empty(), cap: segs[k].cap })
            }),
            Self::unread(final(data)) == Self::unread(old(data)),
    ;

    /// Moves the next row out: one item of every input.
    fn next_unchecked(data: &mut Self::Data) -> (item: Self::Item)
        requires
            all_wf(Self::segments(old(data))),
            Self::unread(old(data)).len() > 0,
        ensures
            item == Self::unread(old(data))[0],
            Self::unread(final(data)) == Self::unread(old(data)).drop_first(),
            Self::segments(final(data)) == advance(Self::segments(old(data))),
    ;

    /// Drops the tail of every input, its items from the `len`-th on, and
    /// frees every allocation that was not surrendered. `len` has to be the
    /// number of rows that were read, so that what is dropped of an input is
    /// what is left of it: as many items as it held at the start less `len`.
    fn drop_rest(data: &mut Self::Data, len: usize)
        requires
            all_read(Self::segments(old(data)), len as nat),
        ensures
            Self::segments(final(data)) == drop_tails(Self::segments(old(data))),
            all_read(Self::segments(final(data)), len as nat),
            Self::unread(final(data)) == Seq::<Self::Item>::empty(),
    ;
}

/// A list of inputs that can be zipped: `(a,)`, `(a, (b,))`, `(a, (b, (c,)))`
/// and so on.
pub trait Tuple: Seal {

}

impl<A: TupleElem> Tuple for (A,) {

}

impl<A: TupleElem> Seal for (A,) {
    const LEN: u64 = 0;

    type Item = A::Item;

    type Data = A::Data;

    open spec fn layouts() -> Seq<Layout> {
        seq![A::layout()]
    }

    open spec fn lengths(&self) -> Seq<nat> {
        seq![self.0.items().len()]
    }

    open spec fn rows(&self) -> Seq<A::Item> {
        self.0.items()
    }

    open spec fn segments(data: &A::Data) -> Seq<Segment> {
        seq![A::segment(data)]
    }

    open spec fn unread(data: &A::Data) -> Seq<A::Item> {
        A::unread(data)
    }

    proof fn lemma_len() {
    }

    proof fn lemma_rows(&self) {
        assert(self.lengths()[0] == self.rows().len());
    }

    proof fn lemma_segments(data: &A::Data) {
        A::lemma_segment(data);
    }

    #[inline]
    fn into_data(self) -> (data: A::Data) {
        self.0.into_data()
    }

    #[inline]
    fn remaining_len(&self) -> (len: usize) {
        self.0.len()
    }

    #[inline]
    fn into_iterator(self) -> (rows: Vec<A::Item>) {
        self.0.into_iterator()
    }

    #[inline]
    fn check_layout<V>() -> (matches: bool) {
        let matches = A::check_layout::<V>();
        proof {
            assert(Self::layouts()[0] == A::layout());
        }
        matches
    }

    #[inline]
    fn max_cap<V>(data: &A::Data, depth: &mut u64) -> (cap: Option<usize>) {
        proof {
            A::lemma_segment(data);
            assert(Self::layouts()[0] == A::layout());
        }
        if A::check_layout::<V>() {
            *depth = Self::LEN;
            proof {
                assert(is_pick(Self::segments(data), Layout::of::<V>(), 0));
                lemma_pick_unique(
                    Self::segments(data),
                    Layout::of::<V>(),
                    0,
                    pick(Self::segments(data), Layout::of::<V>()),
                );
            }
            Some(A::capacity(data))
        } else {
            None
        }
    }

    #[inline]
    fn take_output<V>(data: &mut A::Data) -> (output: Output<V>) {
        proof {
            A::lemma_segment(data);
            assert(Self::layouts()[0] == A::layout());
            assert(Self::segments(data)[0].alloc == Alloc::Owned);
            assert(is_pick(Self::segments(data), Layout::of::<V>(), 0));
            lemma_pick_unique(
                Self::segments(data),
                Layout::of::<V>(),
                0,
                pick(Self::segments(data), Layout::of::<V>()),
            );
        }
        let output = A::take_output::<V>(data);
        proof {
            assert(Self::segments(data) =~= Self::segments(old(data)).update(
                0,
                Self::segments(old(data))[0].surrendered(),
            ));
        }
        output
    }

    #[inline]
    fn take_output_impl<V>(data: &mut A::Data, depth: u64) -> (output: Output<V>) {
        proof {
            A::lemma_segment(data);
        }
        let output = A::take_output(data);
        proof {
            assert(Self::segments(data) =~= Self::segments(old(data)).update(
                0,
                Self::segments(old(data))[0].surrendered(),
            ));
        }
        output
    }

    #[inline]
    fn next_unchecked(data: &mut A::Data) -> (item: A::Item) {
        proof {
            assert(Self::segments(data)[0].wf());
        }
        let item = A::next_unchecked(data);
        proof {
            assert(Self::segments(data) =~= advance(Self::segments(old(data))));
        }
        item
    }

    #[inline]
    fn drop_rest(data: &mut A::Data, len: usize) {
        proof {
            assert(Self::segments(data)[0].read == len);
        }
        A::drop_rest(data, len);
        proof {
            assert(Self::segments(data) =~= drop_tails(Self::segments(old(data))));
        }
    }
}

impl<A: TupleElem, T: Tuple> Tuple for (A, T) {

}

impl<A: TupleElem, T: Seal> Seal for (A, T) {
    const LEN: u64 = T::LEN + 1;

    type Item = (A::Item, T::Item);

    type Data = (A::Data, T::Data);

    open spec fn layouts() -> Seq<Layout> {
        seq![A::layout()] + T::layouts()
    }

    open spec fn lengths(&self) -> Seq<nat> {
        seq![self.0.items().len()] + self.1.lengths()
    }

    open spec fn rows(&self) -> Seq<(A::Item, T::Item)> {
        zip_rows(self.0.items(), self.1.rows())
    }

    open spec fn segments(data: &(A::Data, T::Data)) -> Seq<Segment> {
        seq![A::segment(&data.0)] + T::segments(&data.1)
    }

    open spec fn unread(data: &(A::Data, T::Data)) -> Seq<(A::Item, T::Item)> {
        zip_rows(A::unread(&data.0), T::unread(&data.1))
    }

    proof fn lemma_len() {
        T::lemma_len();
    }

    proof fn lemma_rows(&self) {
        self.1.lemma_rows();
        let lens = self.lengths();
        let rest = self.1.lengths();
        let n = self.rows().len();
        assert forall|i: int| 0 <= i < lens.len() implies n <= #[trigger] lens[i] by {
            if i > 0 {
                assert(lens[i] == rest[i - 1]);
            }
        }
        if self.0.items().len() <= self.1.rows().len() {
            assert(lens[0] == n);
        } else {
            let j = choose|j: int| 0 <= j < rest.len() && #[trigger] rest[j] == self.1.rows().len();
            assert(lens[j + 1] == n);
        }
    }

    proof fn lemma_segments(data: &(A::Data, T::Data)) {
        A::lemma_segment(&data.0);
        T::lemma_segments(&data.1);
        let segs = Self::segments(data);
        let rest = T::segments(&data.1);
        assert forall|i: int| 0 <= i < segs.len() implies {
            &&& (#[trigger] segs[i]).layout == Self::layouts()[i]
            &&& Self::unread(data).len() <= segs[i].unread
        } by {
            if i > 0 {
                assert(segs[i] == rest[i - 1]);
            }
        }
    }

    #[inline]
    fn into_data(self) -> (data: (A::Data, T::Data)) {
        let data = (self.0.into_data(), self.1.into_data());
        proof {
            let segs = Self::segments(&data);
            let rest = T::segments(&data.1);
            assert forall|i: int| 0 <= i < segs.len() implies {
                &&& (#[trigger] segs[i]).wf()
                &&& segs[i].read == 0
                &&& segs[i].alloc == Alloc::Owned
            } by {
                if i > 0 {
                    assert(segs[i] == rest[i - 1]);
                }
            }
        }
        data
    }

    #[inline]
    fn remaining_len(&self) -> (len: usize) {
        let first = self.0.len();
        let rest = self.1.remaining_len();
        if first <= rest {
            first
        } else {
            rest
        }
    }

    #[inline]
    fn into_iterator(self) -> (rows: Vec<(A::Item, T::Item)>) {
        zip_vecs(self.0.into_iterator(), self.1.into_iterator())
    }

    #[inline]
    fn check_layout<V>() -> (matches: bool) {
        let first = A::check_layout::<V>();
        let rest = T::check_layout::<V>();
        proof {
            let target = Layout::of::<V>();
            let all = Self::layouts();
            if first {
                assert(all[0] == target);
            }
            if rest {
                let j = choose|j: int| 0 <= j < T::layouts().len() && #[trigger] T::layouts()[j] == target;
                assert(all[j + 1] == target);
            }
            if any_matches(all, target) {
                let i = choose|i: int| 0 <= i < all.len() && #[trigger] all[i] == target;
                if i > 0 {
                    assert(T::layouts()[i - 1] == target);
                }
            }
        }
        first || rest
    }

    #[inline]
    fn max_cap<V>(data: &(A::Data, T::Data), depth: &mut u64) -> (cap: Option<usize>) {
        let cap_rest = T::max_cap::<V>(&data.1, depth);
        let ghost target = Layout::of::<V>();
        proof {
            T::lemma_len();
            A::lemma_segment(&data.0);
            T::lemma_segments(&data.1);
            Self::lemma_segments(data);
            let rest = T::segments(&data.1);
            if some_matches(rest, target) {
                let i = choose|i: int| 0 <= i < rest.len() && (#[trigger] rest[i]).layout == target;
                assert(T::layouts()[i] == target);
            }
            lemma_pick_cons(A::segment(&data.0), rest, target);
            let segs = Self::segments(data);
            if any_matches(Self::layouts(), target) {
                let i = choose|i: int|
                    0 <= i < Self::layouts().len() && #[trigger] Self::layouts()[i] == target;
                assert(segs[i].layout == target);
            }
        }
        if A::check_layout::<V>() {
            let cap = A::capacity(&data.0);
            if let Some(cap_rest) = cap_rest {
                if cap_rest > cap {
                    return Some(cap_rest);
                }
            }
            *depth = Self::LEN;
            Some(cap)
        } else {
            cap_rest
        }
    }

    #[inline]
    fn take_output<V>(data: &mut (A::Data, T::Data)) -> (output: Output<V>) {
        let mut depth: u64 = 0;
        match Self::max_cap::<V>(data, &mut depth) {
            Some(_) => {
                proof {
                    let segs = Self::segments(data);
                    let k = pick(segs, Layout::of::<V>());
                    assert(segs[k].alloc == Alloc::Owned);
                }
                Self::take_output_impl(data, depth)
            },
            // some input has the layout of `V`, so there is a largest one
            None => unreached(),
        }
    }

    #[inline]
    fn take_output_impl<V>(data: &mut (A::Data, T::Data), depth: u64) -> (output: Output<V>) {
        let ghost segs = Self::segments(data);
        let ghost rest = T::segments(&data.1);
        proof {
            A::lemma_segment(&data.0);
            T::lemma_len();
            T::lemma_segments(&data.1);
        }
        if Self::LEN == depth {
            let output = A::take_output(&mut data.0);
            proof {
                assert(Self::segments(data) =~= segs.update(0, segs[0].surrendered()));
            }
            output
        } else {
            proof {
                let k = Self::LEN - depth;
                assert(segs[k] == rest[k - 1]);
            }
            let output = T::take_output_impl(&mut data.1, depth);
            proof {
                let k = Self::LEN - depth;
                assert(Self::segments(data) =~= segs.update(k, segs[k].surrendered()));
            }
            output
        }
    }

    #[inline]
    fn next_unchecked(data: &mut (A::Data, T::Data)) -> (item: (A::Item, T::Item)) {
        let ghost segs = Self::segments(data);
        let ghost rest = T::segments(&data.1);
        proof {
            assert(segs[0].wf());
            assert forall|i: int| 0 <= i < rest.len() implies (#[trigger] rest[i]).wf() by {
                assert(segs[i + 1] == rest[i]);
            }
        }
        let first = A::next_unchecked(&mut data.0);
        let others = T::next_unchecked(&mut data.1);
        proof {
            assert(Self::segments(data) =~= advance(segs));
            assert(Self::unread(data) =~= Self::unread(old(data)).drop_first());
        }
        (first, others)
    }

    #[inline]
    fn drop_rest(data: &mut (A::Data, T::Data), len: usize) {
        let ghost segs = Self::segments(data);
        let ghost rest = T::segments(&data.1);
        proof {
            assert(segs[0].read == len);
            assert forall|i: int| 0 <= i < rest.len() implies (#[trigger] rest[i]).read == len by {
                assert(segs[i + 1] == rest[i]);
            }
        }
        A::drop_rest(&mut data.0, len);
        T::drop_rest(&mut data.1, len);
        proof {
            assert(Self::segments(data) =~= drop_tails(segs));
            assert(Self::unread(data) =~= Seq::<(A::Item, T::Item)>::empty());
        }
    }
}

/// Whether an input gives its allocation to the output, and which one, is
/// decided by the types of the inputs and of the results and by the
/// capacities alone. Two lists of inputs of the same types whose capacities
/// agree place by place get the same decision, whatever their elements are,
/// however many there are in each and whatever the transform is: either no
/// input has items of the layout `target` in both, and the results are
/// collected apart, or the same place is the pick in both.
pub proof fn lemma_decision_ignores_values<In: Seal>(a: &In::Data, b: &In::Data, target: Layout)
    requires
        forall|i: int|
            0 <= i < In::layouts().len() ==> (#[trigger] In::segments(a)[i]).cap == In::segments(
                b,
            )[i].cap,
    ensures
        some_matches(In::segments(a), target) == any_matches(In::layouts(), target),
        some_matches(In::segments(b), target) == any_matches(In::layouts(), target),
        any_matches(In::layouts(), target) ==> {
            &&& is_pick(In::segments(a), target, pick(In::segments(a), target))
            &&& pick(In::segments(a), target) == pick(In::segments(b), target)
        },
{
    In::lemma_segments(a);
    In::lemma_segments(b);
    let sa = In::segments(a);
    let sb = In::segments(b);
    let layouts = In::layouts();
    assert forall|i: int| 0 <= i < sa.len() implies (#[trigger] sa[i]).layout == sb[i].layout
        && sa[i].cap == sb[i].cap by {
        assert(sa[i].layout == layouts[i]);
        assert(sb[i].layout == layouts[i]);
    }
    if some_matches(sa, target) {
        let i = choose|i: int| 0 <= i < sa.len() && (#[trigger] sa[i]).layout == target;
        assert(layouts[i] == target);
    }
    if some_matches(sb, target) {
        let i = choose|i: int| 0 <= i < sb.len() && (#[trigger] sb[i]).layout == target;
        assert(layouts[i] == target);
    }
    if any_matches(layouts, target) {
        let i = choose|i: int| 0 <= i < layouts.len() && #[trigger] layouts[i] == target;
        assert(sa[i].layout == target);
        assert(sb[i].layout == target);
        assert(Seq::new(sa.len(), |j: int| sa[j].layout) =~= layouts);
        assert(Seq::new(sb.len(), |j: int| sb[j].layout) =~= layouts);
        lemma_pick_exists(sa, target);
        lemma_pick_exists(sb, target);
        let k = pick(sa, target);
        lemma_pick_ignores_values(sa, sb, target, k);
        lemma_pick_unique(sb, target, k, pick(sb, target));
    }
}

/// Applies the transform to the rows in order and collects the results in a
/// new buffer. The first failure ends the work: the results so far and the
/// rows that are left are dropped.
pub fn collect_rows<Row, G: Transform<Row>>(rows: Vec<Row>, g: G) -> (result: Result<
    Vec<G::Out>,
    G::Error,
>)
    requires
        accepts_all(&g, rows@),
    ensures
        match result {
            Ok(out) => mapped(&g, rows@, out@),
            Err(e) => stopped(&g, rows@, e),
        },
{
    let mut transform = g;
    let mut queue = into_queue(rows);
    let mut out: Vec<G::Out> = Vec::new();
    while queue.len() > 0
        invariant
            transform == g,
            queue@.len() + out@.len() == rows@.len(),
            forall|i: int| 0 <= i < queue@.len() ==> queue@[i] == rows@[out@.len() + i],
            accepts_all(&g, rows@),
            forall|i: int| 0 <= i < out@.len() ==> g.yields(rows@[i], #[trigger] out@[i]),
        decreases queue@.len(),
    {
        let ghost k = out@.len() as int;
        let row = queue.pop_front().unwrap();
        assert(row == rows@[k]);
        match transform.apply(row) {
            Ok(value) => {
                out.push(value);
            },
            Err(e) => {
                proof {
                    assert forall|i: int| 0 <= i < k implies succeeds(&g, #[trigger] rows@[i]) by {
                        assert(g.yields(rows@[i], out@[i]));
                    }
                    assert(stopped_at(&g, rows@, k, e));
                }
                return Err(e);
            },
        }
    }
    Ok(out)
}

/// The zip engine. It owns the data segments of the inputs and the output
/// segment, moves one row after the other out of the inputs and writes what
/// the transform makes of it to the output.
pub struct ZipWithIter<V, In: Tuple> {
    // the buffer that the results are written into; its allocation is the one
    // that an input surrendered
    output: Output<V>,
    // the inputs; they are only read from
    input: In::Data,
    // the number of rows at the start
    initial_len: usize,
    // the number of rows that were not started yet
    remaining_len: usize,
    // whether the output and its allocation are still the engine's to release
    should_free_output: bool,
}

impl<V, In: Tuple> ZipWithIter<V, In> {
    /// The output segment.
    pub closed spec fn output(&self) -> OutputView<V> {
        self.output@
    }

    /// The data segments of the inputs, without their items.
    pub closed spec fn segments(&self) -> Seq<Segment> {
        In::segments(&self.input)
    }

    /// The rows that have not been moved out of the inputs.
    pub closed spec fn unread(&self) -> Seq<In::Item> {
        In::unread(&self.input)
    }

    /// The number of rows at the start.
    pub closed spec fn initial_len(&self) -> nat {
        self.initial_len as nat
    }

    /// The number of rows that were not started yet.
    pub closed spec fn remaining_len(&self) -> nat {
        self.remaining_len as nat
    }

    /// Whether the output and its allocation are still the engine's to
    /// release.
    pub closed spec fn should_free_output(&self) -> bool {
        self.should_free_output
    }

    /// The number of rows that were started.
    pub open spec fn initialized_len(&self) -> int {
        self.initial_len() - self.remaining_len()
    }

    /// What holds whenever the engine is alive: every row that was started
    /// has been moved out of every input, and the output has room for a
    /// result per row.
    pub open spec fn wf(&self) -> bool {
        &&& self.remaining_len() <= self.initial_len()
        &&& all_wf(self.segments())
        &&& all_read(self.segments(), self.initialized_len() as nat)
        &&& self.unread().len() == self.remaining_len()
        &&& self.initial_len() <= self.output().cap
    }

    /// Between two rows: every row that was started has its result in the
    /// output.
    pub open spec fn running(&self) -> bool {
        &&& self.wf()
        &&& self.should_free_output()
        &&& self.output().written.len() == self.initialized_len()
    }

    /// In the middle of a row: it has been moved out of the inputs and
    /// nothing was written for it.
    pub open spec fn failing(&self) -> bool {
        &&& self.wf()
        &&& self.should_free_output()
        &&& self.output().written.len() + 1 == self.initialized_len()
    }

    /// After the last row, with the output about to be handed out.
    pub open spec fn done(&self) -> bool {
        &&& self.wf()
        &&& !self.should_free_output()
        &&& self.remaining_len() == 0
        &&& self.output().written.len() == self.initial_len()
    }

    /// The number of rows that were moved out of the inputs.
    pub fn rows_started(&self) -> (rows: usize)
        requires
            self.remaining_len() <= self.initial_len(),
        ensures
            rows == self.initialized_len(),
    {
        self.initial_len - self.remaining_len
    }

    /// The number of rows whose result is in the output.
    pub fn rows_written(&self) -> (rows: usize)
        ensures
            rows == self.output().written.len(),
    {
        self.output.len()
    }

    /// The number of rows that were not started yet.
    pub fn rows_left(&self) -> (rows: usize)
        ensures
            rows == self.remaining_len(),
    {
        self.remaining_len
    }

    /// Takes the inputs over and makes the allocation of one of them the
    /// output: of the inputs whose items have the layout of `V`, the one with
    /// the largest capacity, and of several such the first.
    pub fn new(input: In) -> (engine: Self)
        requires
            depth_fits(In::layouts()),
            any_matches(In::layouts(), Layout::of::<V>()),
        ensures
            engine.running(),
            engine.unread() == input.rows(),
            engine.initial_len() == input.rows().len(),
            engine.remaining_len() == input.rows().len(),
            engine.output().written == Seq::<V>::empty(),
            ({
                let segs = engine.segments();
                let k = pick(segs, Layout::of::<V>());
                &&& is_pick(segs, Layout::of::<V>(), k)
                &&& engine.output().cap == segs[k].cap
                &&& forall|i: int|
                    0 <= i < segs.len() ==> (#[trigger] segs[i]).alloc == if i == k {
                        Alloc::Surrendered
                    } else {
                        Alloc::Owned
                    }
            }),
    {
        let len = input.remaining_len();
        let mut data = input.into_data();
        let ghost fresh = In::segments(&data);
        proof {
            In::lemma_segments(&data);
        }
        let output = In::take_output::<V>(&mut data);
        let engine = ZipWithIter {
            output,
            input: data,
            initial_len: len,
            remaining_len: len,
            should_free_output: true,
        };
        proof {
            let k = pick(fresh, Layout::of::<V>());
            assert(fresh[k].wf());
            assert(all_read(fresh, 0));
            lemma_pick_surrendered(fresh, Layout::of::<V>());
        }
        engine
    }

    /// The main loop: moves row after row out of the inputs, applies the
    /// transform and writes the result to the output. It ends after the last
    /// row, or with the first error in the middle of the row that gave it.
    pub fn run<G: Transform<In::Item, Out = V>>(&mut self, g: G) -> (result: Result<(), G::Error>)
        requires
            old(self).running(),
            accepts_all(&g, old(self).unread()),
        ensures
            final(self).wf(),
            final(self).should_free_output(),
            final(self).initial_len() == old(self).initial_len(),
            final(self).output().cap == old(self).output().cap,
            ({
                let rows = old(self).unread();
                let before = old(self).output().written;
                let steps = (old(self).remaining_len() - final(self).remaining_len()) as nat;
                &&& final(self).segments() == advance_by(old(self).segments(), steps)
                &&& final(self).unread() == rows.skip(steps as int)
                &&& final(self).output().written.take(before.len() as int) == before
                &&& match result {
                    Ok(()) => {
                        &&& final(self).running()
                        &&& final(self).remaining_len() == 0
                        &&& mapped(&g, rows, final(self).output().written.skip(before.len() as int))
                    },
                    Err(e) => {
                        &&& final(self).failing()
                        &&& stopped_at(&g, rows, steps - 1, e)
                        &&& mapped(
                            &g,
                            rows.take(steps - 1),
                            final(self).output().written.skip(before.len() as int),
                        )
                    },
                }
            }),
    {
        let ghost rows = self.unread();
        let ghost before = self.output().written;
        let ghost segs = self.segments();
        let ghost start = self.remaining_len();
        let mut transform = g;
        proof {
            In::lemma_segments(&self.input);
            assert(self.segments() =~= advance_by(segs, 0));
            assert(self.unread() =~= rows.skip(0));
            assert(self.output().written.take(before.len() as int) =~= before);
        }
        while self.remaining_len > 0
            invariant
                transform == g,
                rows == old(self).unread(),
                before == old(self).output().written,
                segs == old(self).segments(),
                start == old(self).remaining_len(),
                self.running(),
                self.initial_len() == old(self).initial_len(),
                self.output().cap == old(self).output().cap,
                self.remaining_len() <= start,
                start == rows.len(),
                before.len() + start == self.initial_len(),
                forall|i: int| 0 <= i < segs.len() ==> rows.len() <= (#[trigger] segs[i]).unread,
                self.segments() == advance_by(segs, (start - self.remaining_len()) as nat),
                self.unread() == rows.skip(start - self.remaining_len()),
                self.output().written.take(before.len() as int) == before,
                accepts_all(&g, rows),
                forall|i: int|
                    0 <= i < start - self.remaining_len() ==> g.yields(
                        rows[i],
                        #[trigger] self.output().written[before.len() + i],
                    ),
            decreases self.remaining_len(),
        {
            let ghost j = (start - self.remaining_len()) as int;
            let ghost written = self.output().written;
            let ghost current = self.segments();
            self.remaining_len = self.remaining_len - 1;
            let row = In::next_unchecked(&mut self.input);
            proof {
                assert(row == rows[j]);
                assert(self.unread() =~= rows.skip(j + 1));
                assert forall|i: int| 0 <= i < segs.len() implies #[trigger] self.segments()[i]
                    == segs[i].advanced_by((j + 1) as nat) by {
                    assert(current[i] == segs[i].advanced_by(j as nat));
                    assert(self.segments()[i] == current[i].advanced());
                }
                assert(self.segments() =~= advance_by(segs, (j + 1) as nat));
                assert forall|i: int| 0 <= i < segs.len() implies (#[trigger] self.segments()[i]).wf()
                    && self.segments()[i].read == j + 1 + before.len() by {
                    assert(current[i].wf());
                    assert(current[i].read == j + before.len());
                    assert(self.segments()[i] == segs[i].advanced_by((j + 1) as nat));
                }
            }
            match transform.apply(row) {
                Ok(value) => {
                    self.output.write(value);
                    proof {
                        assert(self.output().written.take(before.len() as int) =~= before);
                        assert forall|i: int| 0 <= i < j + 1 implies g.yields(
                            rows[i],
                            #[trigger] self.output().written[before.len() + i],
                        ) by {
                            if i < j {
                                assert(self.output().written[before.len() + i] == written[before.len()
                                    + i]);
                            }
                        }
                    }
                },
                Err(e) => {
                    proof {
                        assert forall|i: int| 0 <= i < j implies succeeds(&g, #[trigger] rows[i]) by {
                            assert(g.yields(rows[i], written[before.len() + i]));
                        }
                        assert(stopped_at(&g, rows, j, e));
                        let made = self.output().written.skip(before.len() as int);
                        assert forall|i: int| 0 <= i < j implies g.yields(
                            rows.take(j)[i],
                            #[trigger] made[i],
                        ) by {
                            assert(made[i] == written[before.len() + i]);
                        }
                        assert(mapped(&g, rows.take(j), made));
                    }
                    return Err(e);
                },
            }
        }
        proof {
            let made = self.output().written.skip(before.len() as int);
            assert forall|i: int| 0 <= i < rows.len() implies g.yields(rows[i], #[trigger] made[i]) by {
                assert(made[i] == self.output().written[before.len() + i]);
            }
        }
        Ok(())
    }

    /// The drop guard. It releases what the engine holds: the results written
    /// so far, with the allocation of the output, unless the output is about
    /// to be handed out; the tail of every input; and every input allocation
    /// that was not surrendered. A row that was moved out of the inputs
    /// without a result being written for it is not the guard's to release.
    pub fn drop(&mut self)
        requires
            old(self).running() || old(self).failing() || old(self).done(),
        ensures
            final(self).segments() == drop_tails(old(self).segments()),
            all_released(final(self).segments()),
            final(self).unread() == Seq::<In::Item>::empty(),
            final(self).initial_len() == old(self).initial_len(),
            final(self).remaining_len() == old(self).remaining_len(),
            !final(self).should_free_output(),
            final(self).output() == if old(self).should_free_output() {
                OutputView { written: Seq::<V>::empty(), ..old(self).output() }
            } else {
                old(self).output()
            },
    {
        let initialized_len = self.initial_len - self.remaining_len;
        if self.should_free_output {
            let written = self.output.len();
            self.output.take(written);
            self.should_free_output = false;
        }
        In::drop_rest(&mut self.input, initialized_len);
    }

    /// Runs the engine to its end and hands the output out as a buffer. If
    /// the transform fails, the error is returned and everything that the
    /// engine holds is released.
    pub fn finish<G: Transform<In::Item, Out = V>>(self, g: G) -> (result: Result<Vec<V>, G::Error>)
        requires
            self.running(),
            accepts_all(&g, self.unread()),
        ensures
            match result {
                Ok(out) => {
                    let before = self.output().written;
                    &&& out@.take(before.len() as int) == before
                    &&& mapped(&g, self.unread(), out@.skip(before.len() as int))
                },
                Err(e) => stopped(&g, self.unread(), e),
            },
    {
        let mut engine = self;
        match engine.run(g) {
            Ok(()) => {
                // the output is handed out, so it is not the guard's to release
                engine.should_free_output = false;
                engine.drop();
                let len = engine.initial_len;
                proof {
                    assert(engine.output().written.take(len as int) =~= engine.output().written);
                }
                Ok(engine.output.into_owned_buffer(len))
            },
            Err(e) => {
                engine.drop();
                Err(e)
            },
        }
    }

    /// Runs the engine to its end with `f` as the transform and hands the
    /// output out as a buffer. If `f` fails, its error is returned and
    /// everything that the engine holds is released.
    pub fn try_into_vec<R: Try<Ok = V>, F: FnMut(In::Item) -> R>(self, f: F) -> (result: Result<
        Vec<V>,
        R::Error,
    >)
        requires
            self.running(),
            forall|i: int|
                0 <= i < self.unread().len() ==> call_requires(f, (#[trigger] self.unread()[i],)),
        ensures
            match result {
                Ok(out) => {
                    let before = self.output().written;
                    &&& out@.take(before.len() as int) == before
                    &&& try_mapped(f, self.unread(), out@.skip(before.len() as int))
                },
                Err(e) => try_stopped(f, self.unread(), e),
            },
    {
        proof {
            lemma_try_each(f, self.unread());
        }
        self.finish(TryEach(f))
    }
}

/// Zips the inputs and applies `f` to every row. The result has one element
/// per row, in the order of the rows. If some input has items of the layout
/// of the results, the engine runs with the output standing for the
/// allocation of one such input, the one that [`ZipWithIter::new`] picks;
/// otherwise the results are collected apart. If `f` fails on a row, its
/// error is returned and no later row is looked at.
pub fn try_zip_with_impl<R: Try, In: Tuple, F: FnMut(In::Item) -> R>(input: In, f: F) -> (result:
    Result<Vec<R::Ok>, R::Error>)
    requires
        depth_fits(In::layouts()),
        forall|i: int| 0 <= i < input.rows().len() ==> call_requires(f, (#[trigger] input.rows()[i],)),
    ensures
        match result {
            Ok(out) => try_mapped(f, input.rows(), out@),
            Err(e) => try_stopped(f, input.rows(), e),
        },
{
    if In::check_layout::<R::Ok>() {
        let engine = ZipWithIter::<R::Ok, In>::new(input);
        let result = engine.try_into_vec(f);
        proof {
            if result is Ok {
                assert(result->Ok_0@.skip(0) =~= result->Ok_0@);
            }
        }
        result
    } else {
        proof {
            lemma_try_each(f, input.rows());
        }
        collect_rows(input.into_iterator(), TryEach(f))
    }
}

} // verus!
