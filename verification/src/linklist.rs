use vstd::prelude::*;

verus! {

struct Node<T> {
    elem: T,
    next: Option<Box<Node<T>>>,
}

/// The elements from `link` to the end of the chain.
spec fn chain_view<T>(link: Option<Box<Node<T>>>) -> Seq<T>
    decreases link,
{
    match link {
        None => Seq::empty(),
        Some(node) => seq![node.elem] + chain_view(node.next),
    }
}

/// A singly linked stack. Elements are pushed and popped at the front.
pub struct MyLs<T> {
    head: Option<Box<Node<T>>>,
    len: usize,
}

impl<T> View for MyLs<T> {
    type V = Seq<T>;

    /// The elements, front first.
    closed spec fn view(&self) -> Seq<T> {
        chain_view(self.head)
    }
}

impl<T> MyLs<T> {
    /// The cached length agrees with the chain.
    pub closed spec fn wf(&self) -> bool {
        self.len == chain_view(self.head).len()
    }

    /// An empty list.
    pub fn new() -> (list: Self)
        ensures
            list.wf(),
            list@ == Seq::<T>::empty(),
    {
        MyLs { head: None, len: 0 }
    }

    /// The number of elements.
    pub fn len(&self) -> (n: usize)
        requires
            self.wf(),
        ensures
            n == self@.len(),
    {
        self.len
    }

    /// Puts `elem` in front of all others.
    pub fn push_front(&mut self, elem: T)
        requires
            old(self).wf(),
            old(self)@.len() < usize::MAX,
        ensures
            final(self).wf(),
            final(self)@ == seq![elem] + old(self)@,
    {
        let boxed_node = Box::new(Node { elem: elem, next: self.head.take() });
        self.head = Some(boxed_node);
        self.len = self.len + 1;
    }

    /// Takes the front element off, if there is one.
    pub fn pop_front(&mut self) -> (front: Option<T>)
        requires
            old(self).wf(),
        ensures
            final(self).wf(),
            front is None <==> old(self)@.len() == 0,
            front is None ==> final(self)@ == old(self)@,
            front matches Some(elem) ==> elem == old(self)@[0] && final(self)@ == old(self)@.drop_first(),
    {
        if self.len == 0 {
            None
        } else {
            match self.head.take() {
                Some(boxed_node) => {
                    let node = *boxed_node;
                    self.len = self.len - 1;
                    self.head = node.next;
                    proof {
                        assert((seq![node.elem] + chain_view(node.next)).drop_first()
                            =~= chain_view(node.next));
                    }
                    Some(node.elem)
                },
                None => None,
            }
        }
    }

    /// The front element, if there is one.
    pub fn peek_front(&self) -> (front: Option<&T>)
        requires
            self.wf(),
        ensures
            front is None <==> self@.len() == 0,
            front matches Some(elem) ==> *elem == self@[0],
    {
        if self.len == 0 {
            None
        } else {
            match &self.head {
                Some(boxed_node) => Some(&boxed_node.elem),
                None => None,
            }
        }
    }
}

} // verus!
