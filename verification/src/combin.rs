//! Transformations built from combinators: a chain of `map`, `try_map` and
//! `zip` over data segments is turned into an iterator that is run into a
//! buffer, which stands for the allocation of one of the inputs where the
//! layouts allow it.

use vstd::prelude::*;
use core::convert::Infallible;
use vstd::std_specs::convert::IntoSpec;
use crate::combin::data::{Data, Output};
use crate::layout::Layout;
use crate::try_trait::{never, Try};
use crate::vec::general_zip::{
    advance, all_wf, is_pick, lemma_pick_concat, lemma_pick_unique, pick,
};
use crate::vec::Segment;

pub mod data;

verus! {

/// One of two things.
pub enum Either<T, U> {
    Left(T),
    Right(U),
}

impl<T: Into<Infallible>, U: Into<Infallible>> Into<Infallible> for Either<T, U> {
    fn into(self) -> Infallible {
        match self {
            Either::Left(t) => t.into(),
            Either::Right(u) => u.into(),
        }
    }
}

impl<T: Into<Infallible>, U: Into<Infallible>> vstd::std_specs::convert::IntoSpecImpl<Infallible> for Either<T, U> {
    /// The conversion is known as far as that of both sides is.
    open spec fn obeys_into_spec() -> bool {
        <T as IntoSpec<Infallible>>::obeys_into_spec() && <U as IntoSpec<Infallible>>::obeys_into_spec()
    }

    /// The `Infallible` that the side that is there converts into.
    open spec fn into_spec(self) -> Infallible {
        match self {
            Either::Left(t) => <T as IntoSpec<Infallible>>::into_spec(t),
            Either::Right(u) => <U as IntoSpec<Infallible>>::into_spec(u),
        }
    }
}

/// An iterator over the items of a chain: each call moves one element out of
/// every input and applies the functions of the chain to it.
pub trait VecIter: Sized {
    /// What is produced.
    type Item;

    /// What a failure carries.
    type Error;

    /// The inputs are consistent.
    spec fn wf(&self) -> bool;

    /// The data segments of the inputs, without their elements, from left to
    /// right.
    spec fn segments(&self) -> Seq<Segment>;

    /// The number of items that are left.
    spec fn spec_len(&self) -> nat;

    /// The `i`-th of the items that are left may be `x`.
    spec fn yields_at(&self, i: int, x: Self::Item) -> bool;

    /// Producing the `i`-th of the items that are left may fail with `e`.
    spec fn fails_at(&self, i: int, e: Self::Error) -> bool;

    /// Every function in the chain may be applied to whatever reaches it.
    spec fn admits(&self) -> bool;

    /// The number of items that are left.
    fn remaining(&self) -> (len: usize)
        ensures
            len == self.spec_len(),
    ;

    /// Produces the next item. After a failure the iterator is of no further
    /// use.
    fn next_unchecked(&mut self) -> (result: Result<Self::Item, Self::Error>)
        requires
            old(self).wf(),
            old(self).admits(),
            old(self).spec_len() > 0,
        ensures
            match result {
                Ok(x) => {
                    &&& old(self).yields_at(0, x)
                    &&& final(self).wf()
                    &&& final(self).admits()
                    &&& final(self).spec_len() == old(self).spec_len() - 1
                    &&& final(self).segments() == advance(old(self).segments())
                    &&& forall|i: int, y: Self::Item| #[trigger]
                        final(self).yields_at(i, y) ==> old(self).yields_at(i + 1, y)
                    &&& forall|i: int, e: Self::Error| #[trigger]
                        final(self).fails_at(i, e) ==> old(self).fails_at(i + 1, e)
                },
                Err(e) => old(self).fails_at(0, e),
            },
    ;
}

/// A chain of transformations over data segments that has not been started.
#[allow(clippy::len_without_is_empty)]
pub trait IntoVecIter: Sized {
    /// What is produced.
    type Item;

    /// What a failure carries.
    type Error;

    /// The iterator over the chain when the allocation of an input has been
    /// handed to the output.
    type SplitIter: VecIter<Item = Self::Item, Error = Self::Error>;

    /// The iterator over the chain when every input keeps its allocation.
    type Iter: VecIter<Item = Self::Item, Error = Self::Error>;

    /// The inputs are consistent.
    spec fn wf(&self) -> bool;

    /// The data segments of the inputs, without their elements, from left to
    /// right.
    spec fn segments(&self) -> Seq<Segment>;

    /// The number of items.
    spec fn spec_len(&self) -> nat;

    /// The `i`-th item may be `x`.
    spec fn yields_at(&self, i: int, x: Self::Item) -> bool;

    /// Producing the `i`-th item may fail with `e`.
    spec fn fails_at(&self, i: int, e: Self::Error) -> bool;

    /// Every function in the chain may be applied to whatever reaches it.
    spec fn admits(&self) -> bool;

    /// There is an input, every input is consistent, and every input has an
    /// element for each item.
    proof fn lemma_segments(&self)
        requires
            self.wf(),
        ensures
            self.segments().len() > 0,
            all_wf(self.segments()),
            forall|i: int|
                0 <= i < self.segments().len() ==> self.spec_len() <= (
                #[trigger] self.segments()[i]).unread,
    ;

    /// The number of items.
    fn len(&self) -> (len: usize)
        ensures
            len == self.spec_len(),
    ;

    /// The largest capacity among the inputs whose allocation can hold items
    /// of type `W`, if there is any.
    fn get_cap_for<W>(&self) -> (cap: Option<usize>)
        ensures
            match cap {
                Some(c) => {
                    let k = pick(self.segments(), Layout::of::<W>());
                    &&& is_pick(self.segments(), Layout::of::<W>(), k)
                    &&& c == self.segments()[k].cap
                },
                None => forall|i: int|
                    0 <= i < self.segments().len() ==> (#[trigger] self.segments()[i]).layout
                        != Layout::of::<W>(),
            },
    ;

    /// Starts the chain and hands the allocation of an input to a new output
    /// segment: of the inputs whose allocation can hold items of type `W`,
    /// the one with the largest capacity, and of several such the leftmost.
    fn split_vec_iter<W>(self) -> (split: (Self::SplitIter, Data<W, Output>))
        requires
            self.wf(),
            exists|i: int|
                0 <= i < self.segments().len() && (#[trigger] self.segments()[i]).layout
                    == Layout::of::<W>(),
        ensures
            split.0.wf(),
            self.admits() ==> split.0.admits(),
            split.0.spec_len() == self.spec_len(),
            forall|i: int, x: Self::Item| #[trigger]
                split.0.yields_at(i, x) ==> self.yields_at(i, x),
            forall|i: int, e: Self::Error| #[trigger]
                split.0.fails_at(i, e) ==> self.fails_at(i, e),
            split.1@.items == Seq::<W>::empty(),
            ({
                let segs = self.segments();
                let k = pick(segs, Layout::of::<W>());
                &&& is_pick(segs, Layout::of::<W>(), k)
                &&& split.0.segments() == segs.update(k, segs[k].surrendered())
                &&& split.1@.cap == segs[k].cap
            }),
    ;

    /// Starts the chain with every input keeping its allocation.
    fn into_vec_iter(self) -> (iter: Self::Iter)
        requires
            self.wf(),
        ensures
            iter.wf(),
            self.admits() ==> iter.admits(),
            iter.spec_len() == self.spec_len(),
            iter.segments() == self.segments(),
            forall|i: int, x: Self::Item| #[trigger] iter.yields_at(i, x) ==> self.yields_at(i, x),
            forall|i: int, e: Self::Error| #[trigger] iter.fails_at(i, e) ==> self.fails_at(i, e),
    ;

    /// Applies `func` to every item.
    fn map<W, G>(self, func: G) -> (mapped: Mapped<Self, G>) where G: FnMut(Self::Item) -> W
        ensures
            mapped.iter == self,
            mapped.func == func,
    {
        Mapped { iter: self, func }
    }

    /// Applies `func`, which may fail, to every item.
    fn try_map<W, Q: Try<Ok = W>, G>(self, func: G) -> (mapped: TryMap<Self, G>) where
        G: FnMut(Self::Item) -> Q,

        ensures
            mapped.iter == self,
            mapped.func == func,
    {
        TryMap { iter: self, func }
    }

    /// Pairs every item up with the item of `iter` at the same place.
    fn zip<Z>(self, iter: Z) -> (zipped: Zip<Self, Z>)
        ensures
            zipped.a == self,
            zipped.b == iter,
            zipped.min_len == 0,
    {
        Zip { a: self, b: iter, min_len: 0 }
    }
}

/// Folding the first `n` items of `iter` with `f` may take `from` to `to`.
pub open spec fn folded<I: VecIter, Acc, Q: Try<Ok = Acc>, G: FnMut(Acc, I::Item) -> Q>(
    f: G,
    iter: I,
    n: int,
    from: Acc,
    to: Acc,
) -> bool
    decreases n,
{
    if n <= 0 {
        from == to
    } else {
        exists|mid: Acc, x: I::Item, q: Q|
            #![trigger call_ensures(f, (mid, x), q)]
            {
                &&& folded(f, iter, n - 1, from, mid)
                &&& iter.yields_at(n - 1, x)
                &&& call_ensures(f, (mid, x), q)
                &&& q.result() == Ok::<Acc, Q::Error>(to)
            }
    }
}

/// Folding the items of `iter` with `f`, starting from `from`, may end at the
/// `k`-th item because `f` fails on it with `e`.
pub open spec fn fold_stopped<I: VecIter, Acc, Q: Try<Ok = Acc>, G: FnMut(Acc, I::Item) -> Q>(
    f: G,
    iter: I,
    k: int,
    from: Acc,
    e: Q::Error,
) -> bool {
    exists|mid: Acc, x: I::Item, q: Q|
        #![trigger call_ensures(f, (mid, x), q)]
        {
            &&& folded(f, iter, k, from, mid)
            &&& iter.yields_at(k, x)
            &&& call_ensures(f, (mid, x), q)
            &&& q.result() == Err::<Acc, Q::Error>(e)
        }
}

/// Folding the items of `iter` with `f`, starting from `from`, may end at the
/// `k`-th item because `iter` fails to produce it, with `e`.
pub open spec fn fold_broke<I: VecIter, Acc, Q: Try<Ok = Acc>, G: FnMut(Acc, I::Item) -> Q>(
    f: G,
    iter: I,
    k: int,
    from: Acc,
    e: I::Error,
) -> bool {
    iter.fails_at(k, e) && exists|mid: Acc| folded(f, iter, k, from, mid)
}

/// How a fold over the items of `iter` with `f`, starting from `from`, may
/// end with the error `e`: the iterator fails to produce one of its `n`
/// items (`Left`), or `f` fails on one (`Right`).
pub open spec fn fold_failed<I: VecIter, Acc, Q: Try<Ok = Acc>, G: FnMut(Acc, I::Item) -> Q>(
    f: G,
    iter: I,
    n: int,
    from: Acc,
    e: Either<I::Error, Q::Error>,
) -> bool {
    match e {
        Either::Left(inner) => exists|k: int| 0 <= k < n && #[trigger] fold_broke(f, iter, k, from, inner),
        Either::Right(func) => exists|k: int| 0 <= k < n && #[trigger] fold_stopped(f, iter, k, from, func),
    }
}

/// A fold over `n` items that is taken one item further is a fold over
/// `n + 1` items.
pub proof fn lemma_fold_step<I: VecIter, Acc, Q: Try<Ok = Acc>, G: FnMut(Acc, I::Item) -> Q>(
    f: G,
    iter: I,
    n: int,
    from: Acc,
    mid: Acc,
    x: I::Item,
    q: Q,
    to: Acc,
)
    requires
        0 <= n,
        folded(f, iter, n, from, mid),
        iter.yields_at(n, x),
        call_ensures(f, (mid, x), q),
        q.result() == Ok::<Acc, Q::Error>(to),
    ensures
        folded(f, iter, n + 1, from, to),
{
    let m = n + 1;
    assert(folded(f, iter, m - 1, from, mid));
}

/// Folds the items that are left into one value: `f` is applied to the value
/// so far and the next item, in order, so it has to accept every item
/// together with every value that the fold can have reached by then. The
/// first failure ends the work,
/// whether it is the iterator that fails to produce an item (`Left`) or `f`
/// that fails on one (`Right`).
pub fn try_fold<I: VecIter, Acc, Q: Try<Ok = Acc>, G: FnMut(Acc, I::Item) -> Q>(
    iter: &mut I,
    acc: Acc,
    f: G,
) -> (result: Result<Acc, Either<I::Error, Q::Error>>)
    requires
        old(iter).wf(),
        old(iter).admits(),
        forall|k: int, a: Acc, x: I::Item|
            #![trigger folded(f, *old(iter), k, acc, a), old(iter).yields_at(k, x)]
            0 <= k && folded(f, *old(iter), k, acc, a) && old(iter).yields_at(k, x)
                ==> call_requires(f, (a, x)),
    ensures
        match result {
            Ok(last) => folded(f, *old(iter), old(iter).spec_len() as int, acc, last),
            Err(e) => fold_failed(f, *old(iter), old(iter).spec_len() as int, acc, e),
        },
{
    let ghost start = *iter;
    let ghost total = iter.spec_len() as int;
    let mut value = acc;
    let mut fold = f;
    while iter.remaining() > 0
        invariant
            fold == f,
            start == *old(iter),
            total == start.spec_len(),
            iter.wf(),
            iter.admits(),
            iter.spec_len() <= total,
            forall|k: int, a: Acc, x: I::Item|
                #![trigger folded(f, start, k, acc, a), start.yields_at(k, x)]
                0 <= k && folded(f, start, k, acc, a) && start.yields_at(k, x) ==> call_requires(
                    f,
                    (a, x),
                ),
            folded(f, start, total - iter.spec_len(), acc, value),
            forall|i: int, x: I::Item| #[trigger]
                iter.yields_at(i, x) ==> start.yields_at(i + total - iter.spec_len(), x),
            forall|i: int, e: I::Error| #[trigger]
                iter.fails_at(i, e) ==> start.fails_at(i + total - iter.spec_len(), e),
        decreases iter.spec_len(),
    {
        let ghost step = total - iter.spec_len();
        let ghost current = *iter;
        let ghost before = value;
        match iter.next_unchecked() {
            Ok(x) => {
                proof {
                    assert(current.yields_at(0, x));
                    assert(start.yields_at(step, x));
                    assert forall|i: int, y: I::Item| #[trigger]
                        iter.yields_at(i, y) implies start.yields_at(i + step + 1, y) by {
                        assert(current.yields_at(i + 1, y));
                    }
                    assert forall|i: int, e: I::Error| #[trigger]
                        iter.fails_at(i, e) implies start.fails_at(i + step + 1, e) by {
                        assert(current.fails_at(i + 1, e));
                    }
                }
                let q = fold(value, x);
                match q.into_result() {
                    Ok(next) => {
                        value = next;
                        proof {
                            lemma_fold_step(f, start, step, acc, before, x, q, value);
                        }
                    },
                    Err(e) => {
                        proof {
                            assert(fold_stopped(f, start, step, acc, e));
                            let err: Either<I::Error, Q::Error> = Either::Right(e);
                            assert(exists|k: int|
                                0 <= k < total && #[trigger] fold_stopped(f, start, k, acc, e));
                            assert(err matches Either::Right(func) && func == e);
                        }
                        return Err(Either::Right(e));
                    },
                }
            },
            Err(e) => {
                proof {
                    assert(current.fails_at(0, e));
                    assert(fold_broke(f, start, step, acc, e));
                    let err: Either<I::Error, Q::Error> = Either::Left(e);
                    assert(exists|k: int|
                        0 <= k < total && #[trigger] fold_broke(f, start, k, acc, e));
                    assert(err matches Either::Left(inner) && inner == e);
                }
                return Err(Either::Left(e));
            },
        }
    }
    Ok(value)
}

/// `out` holds one item for each place of the chain, in order.
pub open spec fn written<C: IntoVecIter>(chain: C, out: Seq<C::Item>) -> bool {
    &&& out.len() == chain.spec_len()
    &&& forall|i: int| 0 <= i < out.len() ==> chain.yields_at(i, #[trigger] out[i])
}

/// The chain may yield an item at the place `i`.
pub open spec fn yields_some<C: IntoVecIter>(chain: C, i: int) -> bool {
    exists|x: C::Item| chain.yields_at(i, x)
}

/// The chain failed at the place `k` with the error `e`, after yielding an
/// item at every place before it.
pub open spec fn stopped_at<C: IntoVecIter>(chain: C, k: int, e: C::Error) -> bool {
    &&& 0 <= k < chain.spec_len()
    &&& chain.fails_at(k, e)
    &&& forall|i: int| 0 <= i < k ==> #[trigger] yields_some(chain, i)
}

/// The chain failed at some place with the error `e`, after yielding an item
/// at every place before it.
pub open spec fn stopped<C: IntoVecIter>(chain: C, e: C::Error) -> bool {
    exists|k: int| stopped_at(chain, k, e)
}

/// Runs the chain into a buffer: the allocation of one of the inputs if the
/// items fit into it, and a new one otherwise. The first failure ends the
/// work: its error is returned, and what was written and what is left of the
/// inputs is dropped.
pub fn try_into_vec<C: IntoVecIter>(chain: C) -> (result: Result<Vec<C::Item>, C::Error>)
    requires
        chain.wf(),
        chain.admits(),
    ensures
        match result {
            Ok(out) => written(chain, out@),
            Err(e) => stopped(chain, e),
        },
{
    let ghost total = chain.spec_len();
    let (mut iter, mut output) = if chain.get_cap_for::<C::Item>().is_some() {
        proof {
            chain.lemma_segments();
            let segs = chain.segments();
            let k = pick(segs, Layout::of::<C::Item>());
            assert(segs[k].wf());
        }
        let (iter, output) = chain.split_vec_iter();
        (Either::Left(iter), output)
    } else {
        let len = chain.len();
        let iter = chain.into_vec_iter();
        (Either::Right(iter), Data::with_room(len))
    };
    while iter.remaining() > 0
        invariant
            total == chain.spec_len(),
            iter.wf(),
            iter.admits(),
            output@.items.len() + iter.spec_len() == total,
            total <= output@.cap,
            forall|i: int, x: C::Item| #[trigger]
                iter.yields_at(i, x) ==> chain.yields_at(i + output@.items.len(), x),
            forall|i: int, e: C::Error| #[trigger]
                iter.fails_at(i, e) ==> chain.fails_at(i + output@.items.len(), e),
            forall|i: int|
                0 <= i < output@.items.len() ==> chain.yields_at(i, #[trigger] output@.items[i]),
        decreases iter.spec_len(),
    {
        let ghost k = output@.items.len() as int;
        let ghost items = output@.items;
        let ghost current = iter;
        match iter.next_unchecked() {
            Ok(value) => {
                output.write(value);
                proof {
                    assert(current.yields_at(0, value));
                    assert forall|i: int| 0 <= i < k + 1 implies chain.yields_at(
                        i,
                        #[trigger] output@.items[i],
                    ) by {
                        if i < k {
                            assert(output@.items[i] == items[i]);
                        }
                    }
                    assert forall|i: int, x: C::Item| #[trigger]
                        iter.yields_at(i, x) implies chain.yields_at(i + k + 1, x) by {
                        assert(current.yields_at(i + 1, x));
                    }
                    assert forall|i: int, e: C::Error| #[trigger]
                        iter.fails_at(i, e) implies chain.fails_at(i + k + 1, e) by {
                        assert(current.fails_at(i + 1, e));
                    }
                }
            },
            Err(e) => {
                proof {
                    assert(current.fails_at(0, e));
                    assert forall|i: int| 0 <= i < k implies #[trigger] yields_some(chain, i) by {
                        assert(chain.yields_at(i, items[i]));
                    }
                    assert(stopped_at(chain, k, e));
                }
                return Err(e);
            },
        }
    }
    Ok(output.into_vec())
}

/// Runs a chain that cannot fail into a buffer.
#[allow(unreachable_code)]
pub fn into_vec<C: IntoVecIter>(chain: C) -> (out: Vec<C::Item>) where C::Error: Into<Infallible>
    requires
        chain.wf(),
        chain.admits(),
    ensures
        (forall|k: int, e: C::Error| !#[trigger] chain.fails_at(k, e)) ==> written(chain, out@),
{
    match try_into_vec(chain) {
        Ok(vec) => vec,
        Err(e) => {
            proof {
                if forall|k: int, e: C::Error| !#[trigger] chain.fails_at(k, e) {
                    let k = choose|k: int| stopped_at(chain, k, e);
                    assert(chain.fails_at(k, e));
                }
            }
            never(e.into())
        },
    }
}

/// The items of a chain with a function applied to each.
pub struct Mapped<I, F> {
    pub iter: I,
    pub func: F,
}

/// The items of a chain with a function applied to each that may fail.
pub struct TryMap<I, F> {
    pub iter: I,
    pub func: F,
}

/// The items of two chains, paired up.
pub struct Zip<A, B> {
    pub a: A,
    pub b: B,
    // the number of pairs that are left, once the chains have been started
    pub min_len: usize,
}

impl<A: VecIter, B: VecIter<Item = A::Item, Error = A::Error>> VecIter for Either<A, B> {
    type Item = A::Item;

    type Error = A::Error;

    open spec fn wf(&self) -> bool {
        match *self {
            Either::Left(a) => a.wf(),
            Either::Right(b) => b.wf(),
        }
    }

    open spec fn segments(&self) -> Seq<Segment> {
        match *self {
            Either::Left(a) => a.segments(),
            Either::Right(b) => b.segments(),
        }
    }

    open spec fn spec_len(&self) -> nat {
        match *self {
            Either::Left(a) => a.spec_len(),
            Either::Right(b) => b.spec_len(),
        }
    }

    open spec fn yields_at(&self, i: int, x: A::Item) -> bool {
        match *self {
            Either::Left(a) => a.yields_at(i, x),
            Either::Right(b) => b.yields_at(i, x),
        }
    }

    open spec fn fails_at(&self, i: int, e: A::Error) -> bool {
        match *self {
            Either::Left(a) => a.fails_at(i, e),
            Either::Right(b) => b.fails_at(i, e),
        }
    }

    open spec fn admits(&self) -> bool {
        match *self {
            Either::Left(a) => a.admits(),
            Either::Right(b) => b.admits(),
        }
    }

    fn remaining(&self) -> (len: usize) {
        match self {
            Either::Left(a) => a.remaining(),
            Either::Right(b) => b.remaining(),
        }
    }

    fn next_unchecked(&mut self) -> (result: Result<A::Item, A::Error>) {
        match self {
            Either::Left(a) => a.next_unchecked(),
            Either::Right(b) => b.next_unchecked(),
        }
    }
}

impl<I: VecIter, F: FnMut(I::Item) -> U, U> VecIter for Mapped<I, F> {
    type Item = U;

    type Error = I::Error;

    open spec fn wf(&self) -> bool {
        self.iter.wf()
    }

    open spec fn segments(&self) -> Seq<Segment> {
        self.iter.segments()
    }

    open spec fn spec_len(&self) -> nat {
        self.iter.spec_len()
    }

    open spec fn yields_at(&self, i: int, x: U) -> bool {
        exists|y: I::Item| #[trigger] self.iter.yields_at(i, y) && call_ensures(self.func, (y,), x)
    }

    open spec fn fails_at(&self, i: int, e: I::Error) -> bool {
        self.iter.fails_at(i, e)
    }

    open spec fn admits(&self) -> bool {
        &&& self.iter.admits()
        &&& forall|i: int, y: I::Item| #[trigger]
            self.iter.yields_at(i, y) ==> call_requires(self.func, (y,))
    }

    fn remaining(&self) -> (len: usize) {
        self.iter.remaining()
    }

    fn next_unchecked(&mut self) -> (result: Result<U, I::Error>) {
        let ghost before = *self;
        match self.iter.next_unchecked() {
            Ok(y) => {
                let x = (self.func)(y);
                proof {
                    assert(before.iter.yields_at(0, y));
                    assert forall|i: int, z: U| #[trigger] self.yields_at(i, z) implies before.yields_at(
                        i + 1,
                        z,
                    ) by {
                        let w = choose|w: I::Item| #[trigger]
                            self.iter.yields_at(i, w) && call_ensures(self.func, (w,), z);
                        assert(before.iter.yields_at(i + 1, w));
                    }
                }
                Ok(x)
            },
            Err(e) => Err(e),
        }
    }
}

impl<I: IntoVecIter, F: FnMut(I::Item) -> U, U> IntoVecIter for Mapped<I, F> {
    type Item = U;

    type Error = I::Error;

    type SplitIter = Mapped<I::SplitIter, F>;

    type Iter = Mapped<I::Iter, F>;

    open spec fn wf(&self) -> bool {
        self.iter.wf()
    }

    open spec fn segments(&self) -> Seq<Segment> {
        self.iter.segments()
    }

    open spec fn spec_len(&self) -> nat {
        self.iter.spec_len()
    }

    open spec fn yields_at(&self, i: int, x: U) -> bool {
        exists|y: I::Item| #[trigger] self.iter.yields_at(i, y) && call_ensures(self.func, (y,), x)
    }

    open spec fn fails_at(&self, i: int, e: I::Error) -> bool {
        self.iter.fails_at(i, e)
    }

    open spec fn admits(&self) -> bool {
        &&& self.iter.admits()
        &&& forall|i: int, y: I::Item| #[trigger]
            self.iter.yields_at(i, y) ==> call_requires(self.func, (y,))
    }

    proof fn lemma_segments(&self) {
        self.iter.lemma_segments();
    }

    fn len(&self) -> (len: usize) {
        self.iter.len()
    }

    fn get_cap_for<W>(&self) -> (cap: Option<usize>) {
        self.iter.get_cap_for::<W>()
    }

    fn split_vec_iter<W>(self) -> (split: (Mapped<I::SplitIter, F>, Data<W, Output>)) {
        let (iter, out) = self.iter.split_vec_iter();
        let split = Mapped { iter, func: self.func };
        proof {
            assert forall|i: int, z: U| #[trigger] split.yields_at(i, z) implies self.yields_at(
                i,
                z,
            ) by {
                let w = choose|w: I::Item| #[trigger]
                    split.iter.yields_at(i, w) && call_ensures(split.func, (w,), z);
                assert(self.iter.yields_at(i, w));
            }
        }
        (split, out)
    }

    fn into_vec_iter(self) -> (iter: Mapped<I::Iter, F>) {
        let iter = Mapped { iter: self.iter.into_vec_iter(), func: self.func };
        proof {
            assert forall|i: int, z: U| #[trigger] iter.yields_at(i, z) implies self.yields_at(
                i,
                z,
            ) by {
                let w = choose|w: I::Item| #[trigger]
                    iter.iter.yields_at(i, w) && call_ensures(iter.func, (w,), z);
                assert(self.iter.yields_at(i, w));
            }
        }
        iter
    }
}

impl<I: VecIter, F: FnMut(I::Item) -> R, U, R: Try<Ok = U>> VecIter for TryMap<I, F> {
    type Item = U;

    type Error = Either<I::Error, R::Error>;

    open spec fn wf(&self) -> bool {
        self.iter.wf()
    }

    open spec fn segments(&self) -> Seq<Segment> {
        self.iter.segments()
    }

    open spec fn spec_len(&self) -> nat {
        self.iter.spec_len()
    }

    open spec fn yields_at(&self, i: int, x: U) -> bool {
        exists|y: I::Item, r: R|
            #![trigger self.iter.yields_at(i, y), call_ensures(self.func, (y,), r)]
            self.iter.yields_at(i, y) && call_ensures(self.func, (y,), r) && r.result() == Ok::<
                U,
                R::Error,
            >(x)
    }

    open spec fn fails_at(&self, i: int, e: Either<I::Error, R::Error>) -> bool {
        match e {
            Either::Left(inner) => self.iter.fails_at(i, inner),
            Either::Right(func) => exists|y: I::Item, r: R|
                #![trigger self.iter.yields_at(i, y), call_ensures(self.func, (y,), r)]
                self.iter.yields_at(i, y) && call_ensures(self.func, (y,), r) && r.result()
                    == Err::<U, R::Error>(func),
        }
    }

    open spec fn admits(&self) -> bool {
        &&& self.iter.admits()
        &&& forall|i: int, y: I::Item| #[trigger]
            self.iter.yields_at(i, y) ==> call_requires(self.func, (y,))
    }

    fn remaining(&self) -> (len: usize) {
        self.iter.remaining()
    }

    fn next_unchecked(&mut self) -> (result: Result<U, Either<I::Error, R::Error>>) {
        let ghost before = *self;
        match self.iter.next_unchecked() {
            Ok(y) => {
                proof {
                    assert forall|i: int, z: U| #[trigger] self.yields_at(i, z) implies before.yields_at(
                        i + 1,
                        z,
                    ) by {
                        let (w, r) = choose|w: I::Item, r: R|
                            #![trigger self.iter.yields_at(i, w), call_ensures(self.func, (w,), r)]
                            self.iter.yields_at(i, w) && call_ensures(self.func, (w,), r)
                                && r.result() == Ok::<U, R::Error>(z);
                        assert(before.iter.yields_at(i + 1, w));
                    }
                    assert forall|i: int, e: Either<I::Error, R::Error>| #[trigger]
                        self.fails_at(i, e) implies before.fails_at(i + 1, e) by {
                        match e {
                            Either::Left(inner) => {},
                            Either::Right(func) => {
                                let (w, r) = choose|w: I::Item, r: R|
                                    #![trigger self.iter.yields_at(i, w), call_ensures(self.func, (w,), r)]
                                    self.iter.yields_at(i, w) && call_ensures(self.func, (w,), r)
                                        && r.result() == Err::<U, R::Error>(func);
                                assert(before.iter.yields_at(i + 1, w));
                            },
                        }
                    }
                }
                match (self.func)(y).into_result() {
                    Ok(x) => Ok(x),
                    Err(x) => Err(Either::Right(x)),
                }
            },
            Err(x) => Err(Either::Left(x)),
        }
    }
}

impl<I: IntoVecIter, F: FnMut(I::Item) -> R, U, R: Try<Ok = U>> IntoVecIter for TryMap<I, F> {
    type Item = U;

    type Error = Either<I::Error, R::Error>;

    type SplitIter = TryMap<I::SplitIter, F>;

    type Iter = TryMap<I::Iter, F>;

    open spec fn wf(&self) -> bool {
        self.iter.wf()
    }

    open spec fn segments(&self) -> Seq<Segment> {
        self.iter.segments()
    }

    open spec fn spec_len(&self) -> nat {
        self.iter.spec_len()
    }

    open spec fn yields_at(&self, i: int, x: U) -> bool {
        exists|y: I::Item, r: R|
            #![trigger self.iter.yields_at(i, y), call_ensures(self.func, (y,), r)]
            self.iter.yields_at(i, y) && call_ensures(self.func, (y,), r) && r.result() == Ok::<
                U,
                R::Error,
            >(x)
    }

    open spec fn fails_at(&self, i: int, e: Either<I::Error, R::Error>) -> bool {
        match e {
            Either::Left(inner) => self.iter.fails_at(i, inner),
            Either::Right(func) => exists|y: I::Item, r: R|
                #![trigger self.iter.yields_at(i, y), call_ensures(self.func, (y,), r)]
                self.iter.yields_at(i, y) && call_ensures(self.func, (y,), r) && r.result()
                    == Err::<U, R::Error>(func),
        }
    }

    open spec fn admits(&self) -> bool {
        &&& self.iter.admits()
        &&& forall|i: int, y: I::Item| #[trigger]
            self.iter.yields_at(i, y) ==> call_requires(self.func, (y,))
    }

    proof fn lemma_segments(&self) {
        self.iter.lemma_segments();
    }

    fn len(&self) -> (len: usize) {
        self.iter.len()
    }

    fn get_cap_for<W>(&self) -> (cap: Option<usize>) {
        self.iter.get_cap_for::<W>()
    }

    fn split_vec_iter<W>(self) -> (split: (TryMap<I::SplitIter, F>, Data<W, Output>)) {
        let (iter, out) = self.iter.split_vec_iter();
        let split = TryMap { iter, func: self.func };
        proof {
            assert forall|i: int, z: U| #[trigger] split.yields_at(i, z) implies self.yields_at(
                i,
                z,
            ) by {
                let (w, r) = choose|w: I::Item, r: R|
                    #![trigger split.iter.yields_at(i, w), call_ensures(split.func, (w,), r)]
                    split.iter.yields_at(i, w) && call_ensures(split.func, (w,), r) && r.result()
                        == Ok::<U, R::Error>(z);
                assert(self.iter.yields_at(i, w));
            }
            assert forall|i: int, e: Either<I::Error, R::Error>| #[trigger]
                split.fails_at(i, e) implies self.fails_at(i, e) by {
                match e {
                    Either::Left(inner) => {},
                    Either::Right(func) => {
                        let (w, r) = choose|w: I::Item, r: R|
                            #![trigger split.iter.yields_at(i, w), call_ensures(split.func, (w,), r)]
                            split.iter.yields_at(i, w) && call_ensures(split.func, (w,), r)
                                && r.result() == Err::<U, R::Error>(func);
                        assert(self.iter.yields_at(i, w));
                    },
                }
            }
        }
        (split, out)
    }

    fn into_vec_iter(self) -> (iter: TryMap<I::Iter, F>) {
        let iter = TryMap { iter: self.iter.into_vec_iter(), func: self.func };
        proof {
            assert forall|i: int, z: U| #[trigger] iter.yields_at(i, z) implies self.yields_at(
                i,
                z,
            ) by {
                let (w, r) = choose|w: I::Item, r: R|
                    #![trigger iter.iter.yields_at(i, w), call_ensures(iter.func, (w,), r)]
                    iter.iter.yields_at(i, w) && call_ensures(iter.func, (w,), r) && r.result()
                        == Ok::<U, R::Error>(z);
                assert(self.iter.yields_at(i, w));
            }
            assert forall|i: int, e: Either<I::Error, R::Error>| #[trigger]
                iter.fails_at(i, e) implies self.fails_at(i, e) by {
                match e {
                    Either::Left(inner) => {},
                    Either::Right(func) => {
                        let (w, r) = choose|w: I::Item, r: R|
                            #![trigger iter.iter.yields_at(i, w), call_ensures(iter.func, (w,), r)]
                            iter.iter.yields_at(i, w) && call_ensures(iter.func, (w,), r)
                                && r.result() == Err::<U, R::Error>(func);
                        assert(self.iter.yields_at(i, w));
                    },
                }
            }
        }
        iter
    }
}

impl<A: IntoVecIter, B: IntoVecIter> Zip<A, B> {
    fn min(&self) -> (len: usize)
        ensures
            len == self.spec_len(),
    {
        let a = self.a.len();
        let b = self.b.len();
        if a <= b {
            a
        } else {
            b
        }
    }
}

impl<A: IntoVecIter, B: IntoVecIter> IntoVecIter for Zip<A, B> {
    type Item = (A::Item, B::Item);

    type Error = Either<A::Error, B::Error>;

    type SplitIter = Either<Zip<A::SplitIter, B::Iter>, Zip<A::Iter, B::SplitIter>>;

    type Iter = Zip<A::Iter, B::Iter>;

    open spec fn wf(&self) -> bool {
        self.a.wf() && self.b.wf()
    }

    open spec fn segments(&self) -> Seq<Segment> {
        self.a.segments() + self.b.segments()
    }

    open spec fn spec_len(&self) -> nat {
        if self.a.spec_len() <= self.b.spec_len() {
            self.a.spec_len()
        } else {
            self.b.spec_len()
        }
    }

    open spec fn yields_at(&self, i: int, x: (A::Item, B::Item)) -> bool {
        self.a.yields_at(i, x.0) && self.b.yields_at(i, x.1)
    }

    open spec fn fails_at(&self, i: int, e: Either<A::Error, B::Error>) -> bool {
        match e {
            Either::Left(left) => self.a.fails_at(i, left),
            Either::Right(right) => self.b.fails_at(i, right) && exists|x: A::Item|
                self.a.yields_at(i, x),
        }
    }

    open spec fn admits(&self) -> bool {
        self.a.admits() && self.b.admits()
    }

    proof fn lemma_segments(&self) {
        self.a.lemma_segments();
        self.b.lemma_segments();
        let segs = self.segments();
        let a = self.a.segments();
        let b = self.b.segments();
        assert forall|i: int| 0 <= i < segs.len() implies (#[trigger] segs[i]).wf()
            && self.spec_len() <= segs[i].unread by {
            if i < a.len() {
                assert(segs[i] == a[i]);
            } else {
                assert(segs[i] == b[i - a.len()]);
            }
        }
    }

    fn len(&self) -> (len: usize) {
        self.min()
    }

    fn get_cap_for<W>(&self) -> (cap: Option<usize>) {
        let left = self.a.get_cap_for::<W>();
        let right = self.b.get_cap_for::<W>();
        proof {
            let a = self.a.segments();
            let b = self.b.segments();
            let all = self.segments();
            let target = Layout::of::<W>();
            lemma_pick_concat(a, b, target, pick(a, target), pick(b, target));
            if left is Some && right is Some {
                let k = if a[pick(a, target)].cap >= b[pick(b, target)].cap {
                    pick(a, target)
                } else {
                    a.len() + pick(b, target)
                };
                lemma_pick_unique(all, target, k, pick(all, target));
            } else if left is Some {
                lemma_pick_unique(all, target, pick(a, target), pick(all, target));
            } else if right is Some {
                lemma_pick_unique(all, target, a.len() + pick(b, target), pick(all, target));
            } else {
                assert forall|i: int| 0 <= i < all.len() implies (#[trigger] all[i]).layout
                    != target by {
                    if i < a.len() {
                        assert(all[i] == a[i]);
                    } else {
                        assert(all[i] == b[i - a.len()]);
                    }
                }
            }
        }
        match (left, right) {
            (Some(a), Some(b)) => Some(
                if a >= b {
                    a
                } else {
                    b
                },
            ),
            (Some(x), None) => Some(x),
            (None, x) => x,
        }
    }

    fn split_vec_iter<W>(self) -> (split: (
        Either<Zip<A::SplitIter, B::Iter>, Zip<A::Iter, B::SplitIter>>,
        Data<W, Output>,
    ))
        ensures
            split.0 is Left <==> pick(self.segments(), Layout::of::<W>()) < self.a.segments().len(),
            match split.0 {
                Either::Left(zip) => zip.min_len == self.spec_len(),
                Either::Right(zip) => zip.min_len == self.spec_len(),
            },
    {
        let min_len = self.min();
        let ghost a = self.a.segments();
        let ghost b = self.b.segments();
        let ghost all = self.segments();
        let ghost target = Layout::of::<W>();
        let left = self.a.get_cap_for::<W>();
        let right = self.b.get_cap_for::<W>();
        proof {
            lemma_pick_concat(a, b, target, pick(a, target), pick(b, target));
            if left is None && right is None {
                let i = choose|i: int| 0 <= i < all.len() && (#[trigger] all[i]).layout == target;
                if i < a.len() {
                    assert(all[i] == a[i]);
                } else {
                    assert(all[i] == b[i - a.len()]);
                }
            }
        }
        let take_left = match (left, right) {
            (Some(a), Some(b)) => a >= b,
            (Some(_), None) => true,
            (None, _) => false,
        };
        if take_left {
            proof {
                lemma_pick_unique(all, target, pick(a, target), pick(all, target));
            }
            let (first, output) = self.a.split_vec_iter();
            let split = Zip { a: first, min_len, b: self.b.into_vec_iter() };
            proof {
                assert forall|i: int, e: Either<A::Error, B::Error>| #[trigger]
                    split.fails_at(i, e) implies self.fails_at(i, e) by {
                    match e {
                        Either::Left(l) => {},
                        Either::Right(r) => {
                            let x = choose|x: A::Item| split.a.yields_at(i, x);
                            assert(self.a.yields_at(i, x));
                        },
                    }
                }
            }
            (Either::Left(split), output)
        } else {
            proof {
                lemma_pick_unique(all, target, a.len() + pick(b, target), pick(all, target));
                assert(all[a.len() + pick(b, target)] == b[pick(b, target)]);
            }
            let (second, output) = self.b.split_vec_iter();
            let split = Zip { a: self.a.into_vec_iter(), b: second, min_len };
            proof {
                assert forall|i: int, e: Either<A::Error, B::Error>| #[trigger]
                    split.fails_at(i, e) implies self.fails_at(i, e) by {
                    match e {
                        Either::Left(l) => {},
                        Either::Right(r) => {
                            let x = choose|x: A::Item| split.a.yields_at(i, x);
                            assert(self.a.yields_at(i, x));
                        },
                    }
                }
            }
            (Either::Right(split), output)
        }
    }

    fn into_vec_iter(self) -> (iter: Zip<A::Iter, B::Iter>) {
        let iter = Zip {
            min_len: self.min(),
            a: self.a.into_vec_iter(),
            b: self.b.into_vec_iter(),
        };
        proof {
            assert forall|i: int, e: Either<A::Error, B::Error>| #[trigger]
                iter.fails_at(i, e) implies self.fails_at(i, e) by {
                match e {
                    Either::Left(l) => {},
                    Either::Right(r) => {
                        let x = choose|x: A::Item| iter.a.yields_at(i, x);
                        assert(self.a.yields_at(i, x));
                    },
                }
            }
        }
        iter
    }
}

impl<A: VecIter, B: VecIter> VecIter for Zip<A, B> {
    type Item = (A::Item, B::Item);

    type Error = Either<A::Error, B::Error>;

    open spec fn wf(&self) -> bool {
        &&& self.a.wf()
        &&& self.b.wf()
        &&& self.min_len <= self.a.spec_len()
        &&& self.min_len <= self.b.spec_len()
    }

    open spec fn segments(&self) -> Seq<Segment> {
        self.a.segments() + self.b.segments()
    }

    open spec fn spec_len(&self) -> nat {
        self.min_len as nat
    }

    open spec fn yields_at(&self, i: int, x: (A::Item, B::Item)) -> bool {
        self.a.yields_at(i, x.0) && self.b.yields_at(i, x.1)
    }

    open spec fn fails_at(&self, i: int, e: Either<A::Error, B::Error>) -> bool {
        match e {
            Either::Left(left) => self.a.fails_at(i, left),
            Either::Right(right) => self.b.fails_at(i, right) && exists|x: A::Item|
                self.a.yields_at(i, x),
        }
    }

    open spec fn admits(&self) -> bool {
        self.a.admits() && self.b.admits()
    }

    fn remaining(&self) -> (len: usize) {
        self.min_len
    }

    fn next_unchecked(&mut self) -> (result: Result<
        (A::Item, B::Item),
        Either<A::Error, B::Error>,
    >) {
        let ghost before = *self;
        self.min_len = self.min_len - 1;
        let a = match self.a.next_unchecked() {
            Ok(a) => a,
            Err(e) => {
                return Err(Either::Left(e));
            },
        };
        let b = match self.b.next_unchecked() {
            Ok(b) => b,
            Err(e) => {
                return Err(Either::Right(e));
            },
        };
        proof {
            assert forall|i: int, e: Either<A::Error, B::Error>| #[trigger]
                self.fails_at(i, e) implies before.fails_at(i + 1, e) by {
                match e {
                    Either::Left(l) => {},
                    Either::Right(r) => {
                        let x = choose|x: A::Item| self.a.yields_at(i, x);
                        assert(before.a.yields_at(i + 1, x));
                    },
                }
            }
        }
        Ok((a, b))
    }
}

} // verus!
