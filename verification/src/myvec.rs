use vstd::prelude::*;
use std::collections::VecDeque;

verus! {

/// A growable array.
pub struct MyVec<T> {
    buf: Vec<T>,
}

impl<T> View for MyVec<T> {
    type V = Seq<T>;

    closed spec fn view(&self) -> Seq<T> {
        self.buf@
    }
}

impl<T> MyVec<T> {
    /// An empty vector.
    pub fn new() -> (v: Self)
        ensures
            v@ == Seq::<T>::empty(),
    {
        MyVec { buf: Vec::new() }
    }

    /// The number of elements.
    pub fn len(&self) -> (n: usize)
        ensures
            n == self@.len(),
    {
        self.buf.len()
    }

    /// Appends `elem`.
    pub fn push(&mut self, elem: T)
        ensures
            final(self)@ == old(self)@.push(elem),
    {
        self.buf.push(elem);
    }

    /// Takes the last element off, if there is one.
    pub fn pop(&mut self) -> (last: Option<T>)
        ensures
            last is None <==> old(self)@.len() == 0,
            last is None ==> final(self)@ == old(self)@,
            last matches Some(elem) ==> elem == old(self)@.last() && final(self)@ == old(self)@.drop_last(),
    {
        self.buf.pop()
    }

    /// Puts `elem` at position `pos`, moving what was there and everything
    /// behind it one place back.
    pub fn insert(&mut self, pos: usize, elem: T)
        requires
            pos <= old(self)@.len(),
        ensures
            final(self)@ == old(self)@.insert(pos as int, elem),
    {
        self.buf.insert(pos, elem);
    }

    /// Takes the element at position `pos` out, moving everything behind it
    /// one place forward.
    pub fn remove(&mut self, pos: usize) -> (elem: T)
        requires
            pos < old(self)@.len(),
        ensures
            elem == old(self)@[pos as int],
            final(self)@ == old(self)@.remove(pos as int),
    {
        self.buf.remove(pos)
    }

    /// The elements as a slice.
    pub fn as_slice(&self) -> (slice: &[T])
        ensures
            slice@ == self@,
    {
        self.buf.as_slice()
    }

    /// The elements as a slice through which they can be changed.
    pub fn as_mut_slice(&mut self) -> (slice: &mut [T])
        ensures
            slice@ == old(self)@,
            final(self)@ == final(slice)@,
    {
        self.buf.as_mut_slice()
    }

    /// Turns the vector into an iterator over its elements, which can be
    /// taken from either end.
    pub fn into_iter(self) -> (iter: IntoIter<T>)
        ensures
            iter@ == self@,
    {
        IntoIter { items: unload(self.buf) }
    }

    /// Empties the vector and hands its elements out as an iterator, which
    /// can be taken from either end.
    pub fn drain(&mut self) -> (drain: Drain<T>)
        ensures
            final(self)@ == Seq::<T>::empty(),
            drain@ == old(self)@,
    {
        let mut taken: Vec<T> = Vec::new();
        std::mem::swap(&mut self.buf, &mut taken);
        Drain { items: unload(taken) }
    }
}

/// Moves the elements of `buf` into a queue, keeping their order.
fn unload<T>(buf: Vec<T>) -> (items: VecDeque<T>)
    ensures
        items@ == buf@,
{
    let mut buf = buf;
    let ghost all = buf@;
    let mut items: VecDeque<T> = VecDeque::new();
    while buf.len() > 0
        invariant
            buf@ + items@ == all,
        decreases buf.len(),
    {
        let ghost front = buf@;
        let ghost back = items@;
        match buf.pop() {
            Some(elem) => {
                items.push_front(elem);
                proof {
                    assert(buf@ + items@ =~= front + back);
                }
            },
            None => {},
        }
    }
    proof {
        assert(buf@ + items@ =~= items@);
    }
    items
}

/// Takes the front element of `items`.
fn take_front<T>(items: &mut VecDeque<T>) -> (front: Option<T>)
    ensures
        front is None <==> old(items)@.len() == 0,
        front is None ==> final(items)@ == old(items)@,
        front matches Some(elem) ==> elem == old(items)@[0] && final(items)@ == old(items)@.drop_first(),
{
    let front = items.pop_front();
    proof {
        if front is Some {
            assert(items@ =~= old(items)@.drop_first());
        }
    }
    front
}

/// Takes the back element of `items`.
fn take_back<T>(items: &mut VecDeque<T>) -> (back: Option<T>)
    ensures
        back is None <==> old(items)@.len() == 0,
        back is None ==> final(items)@ == old(items)@,
        back matches Some(elem) ==> elem == old(items)@.last() && final(items)@ == old(items)@.drop_last(),
{
    let back = items.pop_back();
    proof {
        if back is Some {
            assert(items@ =~= old(items)@.drop_last());
        }
    }
    back
}

/// The elements of a vector that was turned into an iterator; what is left
/// of them lies between the two ends.
pub struct IntoIter<T> {
    items: VecDeque<T>,
}

impl<T> View for IntoIter<T> {
    type V = Seq<T>;

    /// The elements not yet handed out, front first.
    closed spec fn view(&self) -> Seq<T> {
        self.items@
    }
}

impl<T> IntoIter<T> {
    /// Hands out the front element, if one is left.
    pub fn next(&mut self) -> (front: Option<T>)
        ensures
            front is None <==> old(self)@.len() == 0,
            front is None ==> final(self)@ == old(self)@,
            front matches Some(elem) ==> elem == old(self)@[0] && final(self)@ == old(self)@.drop_first(),
    {
        take_front(&mut self.items)
    }

    /// Hands out the back element, if one is left.
    pub fn next_back(&mut self) -> (back: Option<T>)
        ensures
            back is None <==> old(self)@.len() == 0,
            back is None ==> final(self)@ == old(self)@,
            back matches Some(elem) ==> elem == old(self)@.last() && final(self)@ == old(self)@.drop_last(),
    {
        take_back(&mut self.items)
    }

    /// How many elements are left, as a lower and an upper bound.
    pub fn size_hint(&self) -> (hint: (usize, Option<usize>))
        ensures
            hint.0 == self@.len(),
            hint.1 == Some(hint.0),
    {
        let remaining_elems = self.items.len();
        (remaining_elems, Some(remaining_elems))
    }
}

/// The elements taken out of a vector by `drain`; what is left of them lies
/// between the two ends.
pub struct Drain<T> {
    items: VecDeque<T>,
}

impl<T> View for Drain<T> {
    type V = Seq<T>;

    /// The elements not yet handed out, front first.
    closed spec fn view(&self) -> Seq<T> {
        self.items@
    }
}

impl<T> Drain<T> {
    /// Hands out the front element, if one is left.
    pub fn next(&mut self) -> (front: Option<T>)
        ensures
            front is None <==> old(self)@.len() == 0,
            front is None ==> final(self)@ == old(self)@,
            front matches Some(elem) ==> elem == old(self)@[0] && final(self)@ == old(self)@.drop_first(),
    {
        take_front(&mut self.items)
    }

    /// Hands out the back element, if one is left.
    pub fn next_back(&mut self) -> (back: Option<T>)
        ensures
            back is None <==> old(self)@.len() == 0,
            back is None ==> final(self)@ == old(self)@,
            back matches Some(elem) ==> elem == old(self)@.last() && final(self)@ == old(self)@.drop_last(),
    {
        take_back(&mut self.items)
    }

    /// How many elements are left, as a lower and an upper bound.
    pub fn size_hint(&self) -> (hint: (usize, Option<usize>))
        ensures
            hint.0 == self@.len(),
            hint.1 == Some(hint.0),
    {
        let remaining_elems = self.items.len();
        (remaining_elems, Some(remaining_elems))
    }
}

} // verus!
