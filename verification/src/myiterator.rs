use vstd::prelude::*;
use crate::myvec::Drain;
use crate::myvec::IntoIter;

verus! {

/// An iterator over finitely many items.
///
/// Its mathematical model is the sequence of items it has yet to hand out.
pub trait MyIterator: Sized {
    type Item;

    /// The items still to come, next one first. An iterator that says
    /// nothing else has none.
    open spec fn remaining(&self) -> Seq<Self::Item> {
        Seq::empty()
    }

    /// The iterator's own invariant; none unless it says otherwise.
    open spec fn wf(&self) -> bool {
        true
    }

    /// Hands out the next item; `None` once none is left, and from then on.
    fn next(&mut self) -> (item: Option<Self::Item>)
        requires
            old(self).wf(),
        ensures
            final(self).wf(),
            item is None <==> old(self).remaining().len() == 0,
            item is None ==> final(self).remaining() == old(self).remaining(),
            item matches Some(x) ==> x == old(self).remaining()[0] && final(self).remaining()
                == old(self).remaining().drop_first(),
    ;

    /// Skips `n` items and hands out the one after them. Where fewer than
    /// `n + 1` items are left the iterator is exhausted and the result is
    /// `None`.
    fn nth(&mut self, n: usize) -> (item: Option<Self::Item>)
        requires
            old(self).wf(),
        ensures
            final(self).wf(),
            item is Some <==> n < old(self).remaining().len(),
            item matches Some(x) ==> x == old(self).remaining()[n as int] && final(self).remaining() == old(self).remaining().skip(n + 1),
            item is None ==> final(self).remaining().len() == 0,
    {
        let ghost all = self.remaining();
        let mut left = n;
        let ghost skipped: int = 0;
        proof {
            assert(all.skip(0) =~= all);
        }
        loop
            invariant
                all == old(self).remaining(),
                self.wf(),
                0 <= skipped <= all.len(),
                self.remaining() == all.skip(skipped),
                skipped + left == n,
            decreases self.remaining().len(),
        {
            match self.next() {
                Some(x) => {
                    proof {
                        assert(all.skip(skipped).drop_first() =~= all.skip(skipped + 1));
                    }
                    if left == 0 {
                        return Some(x);
                    }
                    left = left - 1;
                    proof {
                        skipped = skipped + 1;
                    }
                },
                None => {
                    return None;
                },
            }
        }
    }

    /// Calls `f` on every item that is left, in order.
    fn for_each<F>(&mut self, f: F) where F: Fn(Self::Item)
        requires
            old(self).wf(),
            forall|x: Self::Item| call_requires(f, (x,)),
        ensures
            final(self).wf(),
            final(self).remaining().len() == 0,
    {
        loop
            invariant
                self.wf(),
                forall|x: Self::Item| call_requires(f, (x,)),
            decreases self.remaining().len(),
        {
            match self.next() {
                Some(x) => {
                    f(x);
                },
                None => {
                    return ;
                },
            }
        }
    }

    /// The images of this iterator's items under `f`.
    fn map<F, R>(self, f: F) -> (mapped: MyMap<Self, F>) where F: Fn(Self::Item) -> R
        ensures
            mapped.source() == self,
            mapped.function() == f,
    {
        MyMap::new(self, f)
    }

    /// Those of this iterator's items that `f` keeps.
    fn filter<F>(self, f: F) -> (filtered: MyFilter<Self, F>) where F: Fn(&Self::Item) -> bool
        ensures
            filtered.source() == self,
            filtered.predicate() == f,
    {
        MyFilter::new(self, f)
    }

    /// Folds the items that are left into an accumulator, which starts as
    /// `a`: `f` is handed the accumulator and the next item and returns the
    /// new accumulator, or the error at which folding stops. The items
    /// behind the one that failed are left in the iterator.
    fn try_fold<F, A, E>(&mut self, a: A, f: F) -> (res: Result<A, E>) where
        F: Fn(A, Self::Item) -> Result<A, E>,

        requires
            old(self).wf(),
            forall|acc: A, x: Self::Item| call_requires(f, (acc, x)),
        ensures
            final(self).wf(),
            try_folds_to(f, a, old(self).remaining(), res, final(self).remaining()),
    {
        let ghost all = self.remaining();
        let mut accum = a;
        loop
            invariant
                all == old(self).remaining(),
                self.wf(),
                forall|acc: A, x: Self::Item| call_requires(f, (acc, x)),
                forall|r: Result<A, E>, rest: Seq<Self::Item>|
                    try_folds_to(f, accum, self.remaining(), r, rest) ==> try_folds_to(
                        f,
                        a,
                        all,
                        r,
                        rest,
                    ),
            decreases self.remaining().len(),
        {
            let ghost before = self.remaining();
            let ghost seed = accum;
            match self.next() {
                Some(item) => {
                    match f(accum, item) {
                        Ok(next) => {
                            accum = next;
                            proof {
                                assert forall|r: Result<A, E>, rest: Seq<Self::Item>|
                                    try_folds_to(
                                        f,
                                        accum,
                                        self.remaining(),
                                        r,
                                        rest,
                                    ) implies try_folds_to(f, a, all, r, rest) by {
                                    assert(call_ensures(f, (seed, before[0]), Ok(accum)));
                                    assert(try_folds_to(f, seed, before, r, rest));
                                }
                            }
                        },
                        Err(e) => {
                            proof {
                                assert(call_ensures(f, (seed, before[0]), Err(e)));
                                assert(try_folds_to(
                                    f,
                                    seed,
                                    before,
                                    Err::<A, E>(e),
                                    self.remaining(),
                                ));
                            }
                            return Err(e);
                        },
                    }
                },
                None => {
                    proof {
                        assert(try_folds_to(f, accum, before, Ok::<A, E>(accum), before));
                    }
                    return Ok(accum);
                },
            }
        }
    }

    /// Folds the items that are left into an accumulator, which starts as
    /// `a`: `f` is handed the accumulator and the next item and returns the
    /// new accumulator.
    fn fold<F, A>(&mut self, a: A, f: F) -> (res: A) where F: Fn(A, Self::Item) -> A
        requires
            old(self).wf(),
            forall|acc: A, x: Self::Item| call_requires(f, (acc, x)),
        ensures
            final(self).wf(),
            folds_to(f, a, old(self).remaining(), res),
            final(self).remaining().len() == 0,
    {
        let ghost all = self.remaining();
        let mut accum = a;
        loop
            invariant
                all == old(self).remaining(),
                self.wf(),
                forall|acc: A, x: Self::Item| call_requires(f, (acc, x)),
                forall|r: A|
                    folds_to(f, accum, self.remaining(), r) ==> folds_to(f, a, all, r),
            decreases self.remaining().len(),
        {
            let ghost before = self.remaining();
            let ghost seed = accum;
            match self.next() {
                Some(item) => {
                    accum = f(accum, item);
                    proof {
                        assert forall|r: A|
                            folds_to(f, accum, self.remaining(), r) implies folds_to(
                            f,
                            a,
                            all,
                            r,
                        ) by {
                            assert(call_ensures(f, (seed, before[0]), accum));
                            assert(folds_to(f, seed, before, r));
                        }
                    }
                },
                None => {
                    proof {
                        assert(folds_to(f, accum, before, accum));
                    }
                    return accum;
                },
            }
        }
    }

    /// Counts the items that are left, and uses them up.
    fn count(&mut self) -> (n: usize)
        requires
            old(self).wf(),
            old(self).remaining().len() <= usize::MAX,
        ensures
            final(self).wf(),
            n == old(self).remaining().len(),
            final(self).remaining().len() == 0,
    {
        let mut n: usize = 0;
        loop
            invariant
                self.wf(),
                n + self.remaining().len() == old(self).remaining().len() <= usize::MAX,
            decreases self.remaining().len(),
        {
            match self.next() {
                Some(_) => {
                    n = n + 1;
                },
                None => {
                    return n;
                },
            }
        }
    }

    /// The last of the items that are left; uses them all up.
    fn last(&mut self) -> (item: Option<Self::Item>)
        requires
            old(self).wf(),
        ensures
            final(self).wf(),
            item is Some <==> old(self).remaining().len() > 0,
            item matches Some(x) ==> x == old(self).remaining().last(),
            final(self).remaining().len() == 0,
    {
        let ghost all = self.remaining();
        let mut seen: Option<Self::Item> = None;
        let ghost taken: int = 0;
        proof {
            assert(all.skip(0) =~= all);
        }
        loop
            invariant
                all == old(self).remaining(),
                self.wf(),
                0 <= taken <= all.len(),
                self.remaining() == all.skip(taken),
                seen is Some <==> taken > 0,
                seen matches Some(x) ==> x == all[taken - 1],
            decreases self.remaining().len(),
        {
            match self.next() {
                Some(x) => {
                    proof {
                        assert(all.skip(taken).drop_first() =~= all.skip(taken + 1));
                        taken = taken + 1;
                    }
                    seen = Some(x);
                },
                None => {
                    return seen;
                },
            }
        }
    }
}

/// Which of the two iterators of a chain is being read.
enum MyChainState {
    IteratingA,
    IteratingB,
}

/// Two iterators one after the other.
pub struct MyChain<A, B> {
    a: A,
    b: B,
    state: MyChainState,
}

impl<A, B> MyChain<A, B> {
    /// The iterator read first.
    pub closed spec fn first(&self) -> A {
        self.a
    }

    /// The iterator read second.
    pub closed spec fn second(&self) -> B {
        self.b
    }

    /// Whether the first iterator is still being read.
    pub closed spec fn in_first(&self) -> bool {
        self.state is IteratingA
    }

    /// `a` followed by `b`.
    pub fn new(a: A, b: B) -> (chained: Self)
        ensures
            chained.first() == a,
            chained.second() == b,
            chained.in_first(),
    {
        MyChain { a: a, b: b, state: MyChainState::IteratingA }
    }
}

impl<A, B> MyIterator for MyChain<A, B> where A: MyIterator, B: MyIterator<Item = A::Item> {
    type Item = A::Item;

    /// What is left of the first, then what is left of the second.
    open spec fn remaining(&self) -> Seq<A::Item> {
        self.first().remaining() + self.second().remaining()
    }

    /// Both iterators are in order, and the second is read only once the
    /// first has nothing left.
    open spec fn wf(&self) -> bool {
        &&& self.first().wf()
        &&& self.second().wf()
        &&& !self.in_first() ==> self.first().remaining().len() == 0
    }

    fn next(&mut self) -> (item: Option<A::Item>) {
        match self.state {
            MyChainState::IteratingA => {
                match self.a.next() {
                    Some(x) => {
                        proof {
                            assert((old(self).a.remaining() + self.b.remaining()).drop_first()
                                =~= self.a.remaining() + self.b.remaining());
                        }
                        Some(x)
                    },
                    None => {
                        self.state = MyChainState::IteratingB;
                        let item = self.b.next();
                        proof {
                            assert(old(self).a.remaining() + old(self).b.remaining() =~= old(self).b.remaining());
                            assert(self.a.remaining() + self.b.remaining() =~= self.b.remaining());
                        }
                        item
                    },
                }
            },
            MyChainState::IteratingB => {
                let item = self.b.next();
                proof {
                    assert(old(self).a.remaining() + old(self).b.remaining() =~= old(self).b.remaining());
                    assert(self.a.remaining() + self.b.remaining() =~= self.b.remaining());
                }
                item
            },
        }
    }
}

/// What `f` returns for `x`.
pub open spec fn image<T, R, F: Fn(T) -> R>(f: F, x: T) -> R {
    choose|r: R| call_ensures(f, (x,), r)
}

/// `f` may be called with `x`, and what it returns for `x` is settled by
/// its contract.
pub open spec fn settled<T, R, F: Fn(T) -> R>(f: F, x: T) -> bool {
    &&& call_requires(f, (x,))
    &&& forall|r1: R, r2: R|
        call_ensures(f, (x,), r1) && call_ensures(f, (x,), r2) ==> r1 == r2
}

/// The images of the items of `s` under `f`, in the same order.
pub open spec fn images<T, R, F: Fn(T) -> R>(f: F, s: Seq<T>) -> Seq<R> {
    Seq::new(s.len(), |i: int| image(f, s[i]))
}

/// An iterator that hands out the images of another iterator's items under
/// a function.
pub struct MyMap<I, F> {
    iter: I,
    f: F,
}

impl<I, F> MyMap<I, F> {
    /// The iterator whose items are mapped.
    pub closed spec fn source(&self) -> I {
        self.iter
    }

    /// The function applied to each item.
    pub closed spec fn function(&self) -> F {
        self.f
    }

    /// The images of the items of `iter` under `f`.
    pub fn new(iter: I, f: F) -> (mapped: Self)
        ensures
            mapped.source() == iter,
            mapped.function() == f,
    {
        MyMap { iter: iter, f: f }
    }
}

impl<I, F, R> MyIterator for MyMap<I, F> where I: MyIterator, F: Fn(I::Item) -> R {
    type Item = R;

    open spec fn remaining(&self) -> Seq<R> {
        images(self.function(), self.source().remaining())
    }

    /// The source is in order, and the function is settled on every item
    /// that is left.
    open spec fn wf(&self) -> bool {
        &&& self.source().wf()
        &&& forall|i: int|
            0 <= i < self.source().remaining().len() ==> settled(
                self.function(),
                #[trigger] self.source().remaining()[i],
            )
    }

    fn next(&mut self) -> (item: Option<R>) {
        let ghost before = self.iter.remaining();
        match self.iter.next() {
            Some(x) => {
                proof {
                    assert(settled(self.f, before[0]));
                    assert forall|i: int| 0 <= i < self.iter.remaining().len() implies settled(
                        self.f,
                        #[trigger] self.iter.remaining()[i],
                    ) by {
                        assert(self.iter.remaining()[i] == before[i + 1]);
                    }
                }
                let y = (self.f)(x);
                proof {
                    assert(images(self.f, before).drop_first() =~= images(
                        self.f,
                        before.drop_first(),
                    ));
                }
                Some(y)
            },
            None => None,
        }
    }
}

/// Whether `f` keeps `x`.
pub open spec fn keeps<T, F: Fn(&T) -> bool>(f: F, x: T) -> bool {
    choose|b: bool| call_ensures(f, (&x,), b)
}

/// `f` may be asked about `x`, and its answer is settled by its contract.
pub open spec fn decided<T, F: Fn(&T) -> bool>(f: F, x: T) -> bool {
    &&& call_requires(f, (&x,))
    &&& forall|b1: bool, b2: bool|
        call_ensures(f, (&x,), b1) && call_ensures(f, (&x,), b2) ==> b1 == b2
}

/// The items of `s` that `f` keeps, in the same order.
pub open spec fn kept<T, F: Fn(&T) -> bool>(f: F, s: Seq<T>) -> Seq<T>
    decreases s.len(),
{
    if s.len() == 0 {
        Seq::empty()
    } else if keeps(f, s[0]) {
        seq![s[0]] + kept(f, s.drop_first())
    } else {
        kept(f, s.drop_first())
    }
}

/// An iterator that hands out those items of another iterator that a
/// predicate keeps.
pub struct MyFilter<I, F> {
    iter: I,
    f: F,
}

impl<I, F> MyFilter<I, F> {
    /// The iterator whose items are filtered.
    pub closed spec fn source(&self) -> I {
        self.iter
    }

    /// The predicate asked about each item.
    pub closed spec fn predicate(&self) -> F {
        self.f
    }

    /// The items of `iter` that `f` keeps.
    pub fn new(iter: I, f: F) -> (filtered: Self)
        ensures
            filtered.source() == iter,
            filtered.predicate() == f,
    {
        MyFilter { iter: iter, f: f }
    }
}

impl<I, F> MyIterator for MyFilter<I, F> where I: MyIterator, F: Fn(&I::Item) -> bool {
    type Item = I::Item;

    open spec fn remaining(&self) -> Seq<I::Item> {
        kept(self.predicate(), self.source().remaining())
    }

    /// The source is in order, and the predicate is decided on every item
    /// that is left.
    open spec fn wf(&self) -> bool {
        &&& self.source().wf()
        &&& forall|i: int|
            0 <= i < self.source().remaining().len() ==> decided(
                self.predicate(),
                #[trigger] self.source().remaining()[i],
            )
    }

    fn next(&mut self) -> (item: Option<I::Item>) {
        loop
            invariant
                self.wf(),
                self.f == old(self).f,
                kept(self.f, self.iter.remaining()) == kept(old(self).f, old(self).iter.remaining()),
            decreases self.iter.remaining().len(),
        {
            let ghost before = self.iter.remaining();
            match self.iter.next() {
                Some(x) => {
                    proof {
                        assert(decided(self.f, before[0]));
                        assert forall|i: int| 0 <= i < self.iter.remaining().len() implies decided(
                            self.f,
                            #[trigger] self.iter.remaining()[i],
                        ) by {
                            assert(self.iter.remaining()[i] == before[i + 1]);
                        }
                    }
                    if (self.f)(&x) {
                        proof {
                            assert((seq![x] + kept(self.f, before.drop_first())).drop_first()
                                =~= kept(self.f, before.drop_first()));
                        }
                        return Some(x);
                    }
                },
                None => {
                    return None;
                },
            }
        }
    }
}

/// The items of all iterators of `s`, one iterator after the other.
pub open spec fn flattened<I: MyIterator>(s: Seq<I>) -> Seq<I::Item>
    decreases s.len(),
{
    if s.len() == 0 {
        Seq::empty()
    } else {
        s[0].remaining() + flattened(s.drop_first())
    }
}

/// An iterator over the items of the iterators that another iterator hands
/// out.
pub struct MyFlatten<I, II> {
    curr: Option<I>,
    iters: II,
}

impl<I, II> MyFlatten<I, II> {
    /// The iterator being read, if any.
    pub closed spec fn current(&self) -> Option<I> {
        self.curr
    }

    /// The iterator that hands out the iterators still to be read.
    pub closed spec fn source(&self) -> II {
        self.iters
    }
}

impl<I, II> MyFlatten<I, II> where I: MyIterator, II: MyIterator<Item = I> {
    /// The items of the iterators that `iters` hands out. The first of them
    /// is taken from `iters` right away.
    pub fn new(iters: II) -> (flat: Self)
        requires
            iters.wf(),
            forall|i: int| 0 <= i < iters.remaining().len() ==> (#[trigger] iters.remaining()[i]).wf(),
        ensures
            flat.wf(),
            flat.remaining() == flattened(iters.remaining()),
    {
        let mut iters = iters;
        let ghost all = iters.remaining();
        let item = iters.next();
        proof {
            assert forall|i: int| 0 <= i < iters.remaining().len() implies (
            #[trigger] iters.remaining()[i]).wf() by {
                if all.len() > 0 {
                    assert(iters.remaining()[i] == all[i + 1]);
                }
            }
            if item is None {
                assert(flattened(iters.remaining()) =~= Seq::<I::Item>::empty());
            }
        }
        MyFlatten { curr: item, iters: iters }
    }
}

impl<I, II> MyIterator for MyFlatten<I, II> where I: MyIterator, II: MyIterator<Item = I> {
    type Item = I::Item;

    /// What is left of the iterator being read, then the items of the
    /// iterators still to be read.
    open spec fn remaining(&self) -> Seq<I::Item> {
        match self.current() {
            Some(inner) => inner.remaining() + flattened(self.source().remaining()),
            None => Seq::empty(),
        }
    }

    /// All iterators involved are in order, and none is left to be read
    /// once none is being read.
    open spec fn wf(&self) -> bool {
        &&& self.source().wf()
        &&& forall|i: int|
            0 <= i < self.source().remaining().len() ==> (
            #[trigger] self.source().remaining()[i]).wf()
        &&& match self.current() {
            Some(inner) => inner.wf(),
            None => self.source().remaining().len() == 0,
        }
    }

    fn next(&mut self) -> (item: Option<I::Item>) {
        loop
            invariant
                self.wf(),
                self.remaining() == old(self).remaining(),
            decreases
                    self.iters.remaining().len() + (if self.curr is Some {
                        1nat
                    } else {
                        0nat
                    }),
        {
            let ghost rest = self.iters.remaining();
            match self.curr.take() {
                None => {
                    return None;
                },
                Some(inner) => {
                    let mut inner = inner;
                    let ghost before = inner.remaining();
                    let item = inner.next();
                    if item.is_some() {
                        self.curr = Some(inner);
                        proof {
                            assert((before + flattened(rest)).drop_first() =~= inner.remaining()
                                + flattened(rest));
                        }
                        return item;
                    } else {
                        self.curr = self.iters.next();
                        proof {
                            assert(before + flattened(rest) =~= flattened(rest));
                            assert forall|i: int| 0 <= i < self.iters.remaining().len() implies (
                            #[trigger] self.iters.remaining()[i]).wf() by {
                                assert(self.iters.remaining()[i] == rest[i + 1]);
                            }
                            if rest.len() > 0 {
                                assert(rest[0].wf());
                            }
                        }
                    }
                },
            }
        }
    }
}

/// Folding `s` with `f` from `a` can end in `res`: some run of `f` over the
/// items, each call fed what the one before returned, returns it last.
pub open spec fn folds_to<T, A, F: Fn(A, T) -> A>(f: F, a: A, s: Seq<T>, res: A) -> bool
    decreases s.len(),
{
    if s.len() == 0 {
        res == a
    } else {
        exists|next: A| #[trigger]
            call_ensures(f, (a, s[0]), next) && folds_to(f, next, s.drop_first(), res)
    }
}

/// Folding `s` with `f` from `a` can end in `res` with the items `rest`
/// untouched: some run of `f` over the items returns an error at the item in
/// front of `rest`, or returns no error at all and ends in `Ok`, with
/// nothing left.
pub open spec fn try_folds_to<T, A, E, F: Fn(A, T) -> Result<A, E>>(
    f: F,
    a: A,
    s: Seq<T>,
    res: Result<A, E>,
    rest: Seq<T>,
) -> bool
    decreases s.len(),
{
    if s.len() == 0 {
        res == Ok::<A, E>(a) && rest == s
    } else {
        exists|out: Result<A, E>| #[trigger]
            call_ensures(f, (a, s[0]), out) && match out {
                Ok(next) => try_folds_to(f, next, s.drop_first(), res, rest),
                Err(e) => res == Err::<A, E>(e) && rest == s.drop_first(),
            }
    }
}

/// An iterator over the items of the iterators that a function makes of
/// another iterator's items.
pub struct MyFlatMap<II, F, R> {
    inner: MyFlatten<R, MyMap<II, F>>,
}

impl<II, F, R> MyFlatMap<II, F, R> {
    /// The flattened iterator that does the work.
    pub closed spec fn inner(&self) -> MyFlatten<R, MyMap<II, F>> {
        self.inner
    }
}

impl<F, R, I, II> MyFlatMap<II, F, R> where
    R: MyIterator,
    F: Fn(I) -> R,
    II: MyIterator<Item = I>,
 {
    /// The items of the iterators that `f` makes of the items of `iters`.
    pub fn new(iters: II, f: F) -> (flat: Self)
        requires
            iters.wf(),
            forall|i: int|
                0 <= i < iters.remaining().len() ==> settled(f, #[trigger] iters.remaining()[i])
                    && image(f, iters.remaining()[i]).wf(),
        ensures
            flat.wf(),
            flat.remaining() == flattened(images(f, iters.remaining())),
    {
        let mapped = MyMap::new(iters, f);
        let my_flatten = MyFlatten::new(mapped);
        MyFlatMap { inner: my_flatten }
    }
}

impl<F, R, I, II> MyIterator for MyFlatMap<II, F, R> where
    II: MyIterator<Item = I>,
    F: Fn(I) -> R,
    R: MyIterator,
 {
    type Item = R::Item;

    open spec fn remaining(&self) -> Seq<R::Item> {
        self.inner().remaining()
    }

    open spec fn wf(&self) -> bool {
        self.inner().wf()
    }

    fn next(&mut self) -> (item: Option<R::Item>) {
        self.inner.next()
    }
}

impl<T> MyIterator for IntoIter<T> {
    type Item = T;

    open spec fn remaining(&self) -> Seq<T> {
        self@
    }

    open spec fn wf(&self) -> bool {
        true
    }

    fn next(&mut self) -> (item: Option<T>) {
        IntoIter::next(self)
    }
}

impl<T> MyIterator for Drain<T> {
    type Item = T;

    open spec fn remaining(&self) -> Seq<T> {
        self@
    }

    open spec fn wf(&self) -> bool {
        true
    }

    fn next(&mut self) -> (item: Option<T>) {
        Drain::next(self)
    }
}

} // verus!
