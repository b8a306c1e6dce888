use vstd::prelude::*;
use crate::myvec::MyVec;

verus! {

/// A read-only window on the elements of a vector.
pub struct MySlice<'a, T> {
    data: &'a [T],
}

impl<'a, T> View for MySlice<'a, T> {
    type V = Seq<T>;

    closed spec fn view(&self) -> Seq<T> {
        self.data@
    }
}

impl<'a, T> MySlice<'a, T> {
    /// A window on all elements of `vec`.
    pub fn from(vec: &'a MyVec<T>) -> (slice: Self)
        ensures
            slice@ == vec@,
    {
        MySlice { data: vec.as_slice() }
    }

    /// The element at `index`, if the window reaches that far.
    pub fn at(&self, index: usize) -> (elem: Option<&T>)
        ensures
            elem is Some <==> index < self@.len(),
            elem matches Some(e) ==> *e == self@[index as int],
    {
        if self.data.len() == 0 || index >= self.data.len() {
            None
        } else {
            Some(&self.data[index])
        }
    }
}

impl<'a, T> Clone for MySlice<'a, T> {
    fn clone(&self) -> (copy: Self)
        ensures
            copy@ == self@,
    {
        MySlice { data: self.data }
    }
}

impl<'a, T> Copy for MySlice<'a, T> {

}

/// A window on the elements of a vector through which they can be changed.
pub struct MySliceMut<'a, T> {
    pub data: &'a mut [T],
}

impl<'a, T> View for MySliceMut<'a, T> {
    type V = Seq<T>;

    closed spec fn view(&self) -> Seq<T> {
        self.data@
    }
}

impl<'a, T> MySliceMut<'a, T> {
    /// A window on all elements of `vec`. What is written to the window is
    /// written to the vector.
    pub fn from(vec: &'a mut MyVec<T>) -> (slice: Self)
        ensures
            slice@ == old(vec)@,
            final(vec)@ == final(slice.data)@,
    {
        MySliceMut { data: vec.as_mut_slice() }
    }

    /// A window on nothing.
    pub fn empty_slice() -> (slice: Self)
        ensures
            slice@ == Seq::<T>::empty(),
    {
        MySliceMut { data: &mut [] }
    }

    /// The number of elements in the window.
    pub fn len(&self) -> (n: usize)
        ensures
            n == self@.len(),
    {
        self.data.len()
    }

    /// The element at `index`, if the window reaches that far. What is
    /// written to it is written to the window.
    pub fn at(&mut self, index: usize) -> (elem: Option<&mut T>)
        ensures
            elem is Some <==> index < old(self)@.len(),
            elem is None ==> final(self)@ == old(self)@,
            elem matches Some(e) ==> *e == old(self)@[index as int] && final(self)@ == old(self)@.update(index as int, *final(e)),
    {
        if self.data.len() == 0 || index >= self.data.len() {
            None
        } else {
            let (_, tail) = self.data.split_at_mut(index);
            tail.first_mut()
        }
    }

    /// Splits the window in two at `index`: the first part holds the
    /// elements before it, the second the element at it and all behind.
    /// What is written to the parts is written to the window.
    pub fn split_at(&mut self, index: usize) -> (parts: (MySliceMut<'_, T>, MySliceMut<'_, T>))
        requires
            index < old(self)@.len(),
        ensures
            parts.0@ == old(self)@.take(index as int),
            parts.1@ == old(self)@.skip(index as int),
            final(self)@ == final(parts.0.data)@ + final(parts.1.data)@,
    {
        let (fst, snd) = self.data.split_at_mut(index);
        (MySliceMut { data: fst }, MySliceMut { data: snd })
    }

    /// An iterator over the window in chunks of `chunk_size` elements; the
    /// last chunk holds what is left.
    pub fn chunks_mut(&mut self, chunk_size: usize) -> (chunks: MyChunksMut<'_, T>)
        requires
            0 < chunk_size <= old(self)@.len(),
        ensures
            chunks@ == old(self)@,
            chunks.chunk_size() == chunk_size,
    {
        let (_, all) = self.data.split_at_mut(0);
        MyChunksMut { data: Some(all), chunk_size: chunk_size }
    }
}

/// The chunks of a window that have not been handed out yet.
pub struct MyChunksMut<'a, T> {
    data: Option<&'a mut [T]>,
    chunk_size: usize,
}

impl<'a, T> View for MyChunksMut<'a, T> {
    type V = Seq<T>;

    /// The elements not yet handed out.
    closed spec fn view(&self) -> Seq<T> {
        match self.data {
            Some(data) => data@,
            None => Seq::empty(),
        }
    }
}

impl<'a, T> MyChunksMut<'a, T> {
    /// The number of elements in every chunk but the last.
    pub closed spec fn chunk_size(&self) -> usize {
        self.chunk_size
    }

    /// Hands out the next chunk: the first `chunk_size` of the elements that
    /// are left, or all of them where fewer are left; `None` once none is.
    pub fn next(&mut self) -> (chunk: Option<MySliceMut<'a, T>>)
        ensures
            chunk is None <==> old(self)@.len() == 0,
            final(self).chunk_size() == old(self).chunk_size(),
            chunk matches Some(c) ==> {
                let n = if old(self).chunk_size() <= old(self)@.len() {
                    old(self).chunk_size() as int
                } else {
                    old(self)@.len() as int
                };
                &&& c@ == old(self)@.take(n)
                &&& final(self)@ == old(self)@.skip(n)
            },
            chunk is None ==> final(self)@ == old(self)@,
    {
        match self.data.take() {
            None => None,
            Some(data) => {
                let len = data.len();
                if len == 0 {
                    None
                } else {
                    let chunk_size = if self.chunk_size <= len {
                        self.chunk_size
                    } else {
                        len
                    };
                    let (head, tail) = data.split_at_mut(chunk_size);
                    self.data = Some(tail);
                    Some(MySliceMut { data: head })
                }
            },
        }
    }
}

} // verus!
